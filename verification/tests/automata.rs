use flexer::alphabet::divisions;
use flexer::alphabet::insert_point;
use flexer::dfa;
use flexer::dfa::Dfa;
use flexer::dfa::Transition;
use flexer::nfa;
use flexer::nfa::Link;
use flexer::nfa::Nfa;
use flexer::pattern::Pattern;
use flexer::subset::closure;
use flexer::subset::empty_set;
use flexer::subset::first_rule;
use flexer::subset::has_member;
use flexer::subset::moved;
use flexer::subset::same_set;
use flexer::subset::singleton_set;

fn ch(c: char) -> Pattern {
    Pattern::character(c)
}

/// The rule that the automaton yields on the whole of `text`.
fn outcome(dfa: &Dfa, text: &str) -> Option<usize> {
    let mut state = 0;
    for c in text.chars() {
        match dfa.next_state(state, c) {
            Some(next) => state = next,
            None => return None,
        }
    }
    dfa.states[state].finalize
}

fn plain(epsilons: Vec<usize>, links: Vec<Link>) -> nfa::State {
    nfa::State { epsilons, links, rule: None }
}

#[test]
fn nfa_of_one_character() {
    let nfa = Nfa::for_patterns(&vec![ch('a')]);
    let expected = Nfa {
        states: vec![
            nfa::State { epsilons: vec![], links: vec![], rule: Some(0) },
            plain(vec![], vec![Link { low: 97, high: 97, target: 0 }]),
            plain(vec![1], vec![]),
        ],
        start: 2,
    };
    assert_eq!(nfa, expected);
}

#[test]
fn nfa_fragments_are_laid_out_backwards() {
    let mut nfa = Nfa::new();
    let end = nfa.add_state(plain(vec![], vec![]));
    let pattern = ch('a').and_then(ch('b').many()).or(Pattern::range('0', '9').unwrap());
    let start = nfa.add_pattern(&pattern, end);
    // Either(Sequence(a, Many(b)), Range): the sequence holds Many(b) first.
    assert_eq!(nfa.states.len(), 1 + 5);
    assert_eq!(start, 5);
    // Many(b): the hub at 1 goes on to `end` or into the body.
    assert_eq!(nfa.states[1], plain(vec![end, 2], vec![]));
    assert_eq!(nfa.states[2], plain(vec![], vec![Link { low: 98, high: 98, target: 1 }]));
    // a, which ends where Many(b) starts.
    assert_eq!(nfa.states[3], plain(vec![], vec![Link { low: 97, high: 97, target: 1 }]));
    // The range, which ends in `end`.
    assert_eq!(nfa.states[4], plain(vec![], vec![Link { low: 48, high: 57, target: end }]));
    // The fork.
    assert_eq!(nfa.states[5], plain(vec![3, 4], vec![]));
}

#[test]
fn nfa_of_always_and_never() {
    let nfa = Nfa::for_patterns(&vec![Pattern::Always, Pattern::Never]);
    assert_eq!(nfa.start, 4);
    assert_eq!(nfa.states[0].rule, Some(0));
    assert_eq!(nfa.states[1], plain(vec![0], vec![]));
    assert_eq!(nfa.states[2].rule, Some(1));
    assert_eq!(nfa.states[3], plain(vec![], vec![]));
    assert_eq!(nfa.states[4], plain(vec![1, 3], vec![]));
}

#[test]
fn sets_of_states() {
    let nfa = Nfa::for_patterns(&vec![ch('a').many()]);
    // 0: accept, 1: hub (-> 0, -> 2), 2: a -> 1, 3: root (-> 1).
    assert_eq!(nfa.states.len(), 4);
    assert_eq!(empty_set(3), vec![false, false, false]);
    assert_eq!(singleton_set(4, 3), vec![false, false, false, true]);
    assert!(!has_member(&empty_set(4)));
    assert!(has_member(&singleton_set(4, 0)));
    assert!(same_set(&singleton_set(4, 2), &vec![false, false, true, false]));
    assert!(!same_set(&singleton_set(4, 2), &singleton_set(4, 1)));
    let start = closure(&nfa, singleton_set(4, 3));
    assert_eq!(start, vec![true, true, true, true]);
    assert_eq!(closure(&nfa, singleton_set(4, 2)), vec![false, false, true, false]);
    assert_eq!(closure(&nfa, empty_set(4)), empty_set(4));
    assert_eq!(moved(&nfa, &start, 97), vec![false, true, false, false]);
    assert_eq!(moved(&nfa, &start, 98), empty_set(4));
    assert_eq!(first_rule(&nfa, &start), Some(0));
    assert_eq!(first_rule(&nfa, &singleton_set(4, 2)), None);
}

#[test]
fn first_rule_is_the_least() {
    let nfa = Nfa::for_patterns(&vec![ch('a'), ch('b'), ch('c')]);
    // The accepting states are 0, 2 and 4.
    let mut set = empty_set(nfa.states.len());
    set[4] = true;
    assert_eq!(first_rule(&nfa, &set), Some(2));
    set[2] = true;
    assert_eq!(first_rule(&nfa, &set), Some(1));
    set[1] = true;
    assert_eq!(first_rule(&nfa, &set), Some(1));
}

#[test]
fn points_are_kept_in_order() {
    let mut points = vec![];
    insert_point(&mut points, 5);
    insert_point(&mut points, 1);
    insert_point(&mut points, 9);
    insert_point(&mut points, 5);
    insert_point(&mut points, 7);
    insert_point(&mut points, 1);
    assert_eq!(points, vec![1, 5, 7, 9]);
}

#[test]
fn divisions_hold_the_bounds_of_the_edges() {
    let patterns = vec![Pattern::range('a', 'f').unwrap(), Pattern::range('d', 'z').unwrap(), ch('d')];
    let nfa = Nfa::for_patterns(&patterns);
    assert_eq!(divisions(&nfa), vec![97, 100, 101, 103, 123]);
    let none = Nfa::for_patterns(&vec![Pattern::Always]);
    assert_eq!(divisions(&none), Vec::<u64>::new());
}

#[test]
fn divisions_reach_the_end_of_the_codes() {
    let mut nfa = Nfa::new();
    let end = nfa.add_state(plain(vec![], vec![]));
    let _ = nfa.add_state(plain(vec![], vec![Link { low: 0, high: u32::MAX, target: end }]));
    let _ = nfa.add_state(plain(vec![], vec![Link { low: 9, high: 3, target: end }]));
    assert_eq!(divisions(&nfa), vec![0, 0x1_0000_0000]);
}

#[test]
fn dfa_of_one_character() {
    let dfa = Dfa::for_patterns(&vec![ch('a')]);
    let expected = Dfa {
        states: vec![
            dfa::State {
                transitions: vec![Transition { low: 97, high: 97, target: 1 }],
                finalize: None,
            },
            dfa::State { transitions: vec![], finalize: Some(0) },
        ],
    };
    assert_eq!(dfa, expected);
}

#[test]
fn dfa_transitions_do_not_overlap() {
    let patterns = vec![Pattern::range('a', 'f').unwrap(), Pattern::range('d', 'z').unwrap()];
    let dfa = Dfa::for_patterns(&patterns);
    let row = &dfa.states[0].transitions;
    assert_eq!(row.len(), 3);
    assert_eq!((row[0].low, row[0].high), (97, 99));
    assert_eq!((row[1].low, row[1].high), (100, 102));
    assert_eq!((row[2].low, row[2].high), (103, 122));
    assert_eq!(dfa.states[row[0].target].finalize, Some(0));
    assert_eq!(dfa.states[row[1].target].finalize, Some(0));
    assert_eq!(dfa.states[row[2].target].finalize, Some(1));
    assert_eq!(dfa.next_state(0, 'c'), Some(row[0].target));
    assert_eq!(dfa.next_state(0, 'e'), Some(row[1].target));
    assert_eq!(dfa.next_state(0, 'z'), Some(row[2].target));
    assert_eq!(dfa.next_state(0, '{'), None);
    assert_eq!(dfa.next_state(0, 'A'), None);
}

#[test]
fn dfa_yields_the_rule_of_the_pattern_that_matches() {
    let patterns = vec![
        ch('a').and_then(ch('b')),
        ch('a').many1(),
        Pattern::range('0', '9').unwrap().many1().and_then(ch('x').optional()),
    ];
    let dfa = Dfa::for_patterns(&patterns);
    assert_eq!(outcome(&dfa, ""), None);
    assert_eq!(outcome(&dfa, "a"), Some(1));
    assert_eq!(outcome(&dfa, "ab"), Some(0));
    assert_eq!(outcome(&dfa, "aaaa"), Some(1));
    assert_eq!(outcome(&dfa, "aab"), None);
    assert_eq!(outcome(&dfa, "7"), Some(2));
    assert_eq!(outcome(&dfa, "2048x"), Some(2));
    assert_eq!(outcome(&dfa, "2048xx"), None);
    assert_eq!(outcome(&dfa, "x"), None);
}

#[test]
fn dfa_of_two_equal_patterns_yields_the_first() {
    let dfa = Dfa::for_patterns(&vec![ch('a').many1(), ch('a').many1()]);
    assert_eq!(outcome(&dfa, "a"), Some(0));
    assert_eq!(outcome(&dfa, "aaa"), Some(0));
    let swapped = Dfa::for_patterns(&vec![ch('a').many1(), ch('a')]);
    assert_eq!(outcome(&swapped, "a"), Some(0));
    let other = Dfa::for_patterns(&vec![ch('a'), ch('a').many1()]);
    assert_eq!(outcome(&other, "a"), Some(0));
    assert_eq!(outcome(&other, "aa"), Some(1));
}

#[test]
fn dfa_of_repetitions() {
    let dfa = Dfa::for_patterns(&vec![ch('a').repeat(2, 4).unwrap()]);
    assert_eq!(outcome(&dfa, ""), None);
    assert_eq!(outcome(&dfa, "a"), None);
    assert_eq!(outcome(&dfa, "aa"), Some(0));
    assert_eq!(outcome(&dfa, "aaa"), Some(0));
    assert_eq!(outcome(&dfa, "aaaa"), Some(0));
    assert_eq!(outcome(&dfa, "aaaaa"), None);
    let empty = Dfa::for_patterns(&vec![ch('a').many(), Pattern::Never]);
    assert_eq!(outcome(&empty, ""), Some(0));
    assert_eq!(outcome(&empty, "aa"), Some(0));
    assert_eq!(outcome(&empty, "b"), None);
}

#[test]
fn dfa_of_no_patterns_matches_nothing() {
    let dfa = Dfa::for_patterns(&vec![]);
    assert_eq!(dfa.states.len(), 1);
    assert_eq!(outcome(&dfa, ""), None);
    assert_eq!(outcome(&dfa, "a"), None);
}

#[test]
fn dfa_handles_characters_beyond_ascii() {
    let dfa = Dfa::for_patterns(&vec![Pattern::range('α', 'ω').unwrap().many1(), ch('\u{10FFFF}')]);
    assert_eq!(outcome(&dfa, "λόγ"), None);
    assert_eq!(outcome(&dfa, "λογος"), Some(0));
    assert_eq!(outcome(&dfa, "\u{10FFFF}"), Some(1));
    assert_eq!(outcome(&dfa, "\u{10FFFE}"), None);
}
