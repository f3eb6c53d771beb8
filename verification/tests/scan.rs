use flexer::dfa::Dfa;
use flexer::group::Registry;
use flexer::pattern::Pattern;
use flexer::reader::Reader;
use flexer::reader::Text;
use flexer::scan::longest_match;
use flexer::scan::longest_match_within;
use flexer::scan::tokenize;
use flexer::scan::Match;

fn ch(c: char) -> Pattern {
    Pattern::character(c)
}

fn found(rule: usize, text: &str) -> Match {
    Match { rule, lexeme: text.chars().collect() }
}

fn first_match(patterns: Vec<Pattern>, input: &str) -> Option<Match> {
    let dfa = Dfa::for_patterns(&patterns);
    let mut reader = Reader::new(Text::of(input));
    longest_match(&dfa, &mut reader, "match")
}

#[test]
fn one_or_more_matches_the_longest_run() {
    assert_eq!(first_match(vec![ch('a').many1()], "aaab"), Some(found(0, "aaa")));
    assert_eq!(first_match(vec![ch('a').many1()], "aaab").map(|m| m.length()), Some(3));
    assert_eq!(first_match(vec![ch('a').many1()], "baaa"), None);
    assert_eq!(first_match(vec![ch('a').many1()], ""), None);
}

#[test]
fn characters_and_ranges_match_by_their_structure() {
    let word = Pattern::range('a', 'z').unwrap().and_then(Pattern::range('0', '9').unwrap());
    assert_eq!(first_match(vec![word.clone()], "k9k9"), Some(found(0, "k9")));
    assert_eq!(first_match(vec![word.clone()], "k"), None);
    assert_eq!(first_match(vec![word], "9k"), None);
    assert_eq!(first_match(vec![ch('x')], "xx"), Some(found(0, "x")));
}

#[test]
fn longest_match_wins_whatever_the_order() {
    let a = || ch('a');
    let ab = || ch('a').and_then(ch('b'));
    assert_eq!(first_match(vec![a(), ab()], "ab"), Some(found(1, "ab")));
    assert_eq!(first_match(vec![ab(), a()], "ab"), Some(found(0, "ab")));
    assert_eq!(first_match(vec![a(), ab()], "ac"), Some(found(0, "a")));
    assert_eq!(first_match(vec![ab(), a()], "ac"), Some(found(1, "a")));
}

#[test]
fn first_declared_rule_wins_a_tie() {
    let letters = || Pattern::range('a', 'z').unwrap().many1();
    let keyword = || ch('i').and_then(ch('f'));
    assert_eq!(first_match(vec![keyword(), letters()], "if x"), Some(found(0, "if")));
    assert_eq!(first_match(vec![letters(), keyword()], "if x"), Some(found(0, "if")));
    assert_eq!(first_match(vec![keyword(), letters()], "iff"), Some(found(1, "iff")));
}

#[test]
fn the_walk_goes_back_to_the_end_of_the_match() {
    // `abc` is read to see that `abcd` does not follow `a`.
    let patterns = vec![ch('a'), ch('a').and_then(ch('b')).and_then(ch('c')).and_then(ch('d'))];
    let dfa = Dfa::for_patterns(&patterns);
    let mut reader = Reader::new(Text::of("abce"));
    assert_eq!(longest_match(&dfa, &mut reader, "match"), Some(found(0, "a")));
    assert_eq!(reader.peek(), Some('b'));
    assert_eq!(longest_match(&dfa, &mut reader, "match"), None);
    assert_eq!(reader.peek(), Some('b'));
    // The bookmark of the walk is released at its end.
    assert!(reader.rewind("match").is_err());
}

#[test]
fn the_walk_leaves_other_bookmarks_alone() {
    let dfa = Dfa::for_patterns(&vec![ch('a').many1()]);
    let mut reader = Reader::new(Text::of("xaab"));
    reader.create_bookmark("mine");
    assert_eq!(reader.consume(), Some('x'));
    assert_eq!(longest_match(&dfa, &mut reader, "walk"), Some(found(0, "aa")));
    assert_eq!(reader.peek(), Some('b'));
    assert_eq!(reader.rewind("mine"), Ok(()));
    assert_eq!(reader.consume(), Some('x'));
}

#[test]
fn an_empty_match_consumes_nothing() {
    let dfa = Dfa::for_patterns(&vec![ch('a').many()]);
    let mut reader = Reader::new(Text::of("bbb"));
    assert_eq!(longest_match(&dfa, &mut reader, "m"), Some(found(0, "")));
    assert_eq!(reader.peek(), Some('b'));
    let mut reader = Reader::new(Text::of("bbb"));
    assert_eq!(tokenize(&dfa, &mut reader, "m"), vec![]);
    assert_eq!(reader.peek(), Some('b'));
}

#[test]
fn words_of_a_and_b() {
    let mut registry = Registry::new();
    let root = registry.create_group("ROOT", None).unwrap();
    registry.create_rule(root, ch('a').many1(), "emit word-a").unwrap();
    registry.create_rule(root, ch('b').many1(), "emit word-b").unwrap();
    registry.freeze();
    let dfa = registry.compile(root).unwrap();
    let rules = registry.rules_for(root).unwrap();
    let mut reader = Reader::new(Text::of("aaabb"));
    let matches = tokenize(&dfa, &mut reader, "match");
    assert_eq!(matches, vec![found(0, "aaa"), found(1, "bb")]);
    assert_eq!(matches[0].length(), 3);
    assert_eq!(matches[1].length(), 2);
    let actions: Vec<&str> = matches.iter().map(|m| rules[m.rule].action.as_str()).collect();
    assert_eq!(actions, vec!["emit word-a", "emit word-b"]);
    assert!(reader.is_at_end());
}

#[test]
fn tokenize_stops_where_nothing_matches() {
    let patterns = vec![
        Pattern::range('a', 'z').unwrap().many1(),
        ch(' ').many1(),
        Pattern::range('0', '9').unwrap().many1(),
    ];
    let dfa = Dfa::for_patterns(&patterns);
    let mut reader = Reader::new(Text::of("let x1 = 42"));
    let matches = tokenize(&dfa, &mut reader, "match");
    assert_eq!(
        matches,
        vec![found(0, "let"), found(1, " "), found(0, "x"), found(2, "1"), found(1, " ")]
    );
    assert_eq!(reader.peek(), Some('='));
    assert!(!reader.is_at_end());
}

#[test]
fn a_limit_bounds_the_walk() {
    let dfa = Dfa::for_patterns(&vec![ch('a').many1(), ch('a').many1().and_then(ch('b'))]);
    let walk = |limit: Option<usize>| {
        let mut reader = Reader::new(Text::of("aaaab"));
        let found = longest_match_within(&dfa, &mut reader, "m", limit);
        (found, reader.peek())
    };
    assert_eq!(walk(None), (Some(found(1, "aaaab")), None));
    assert_eq!(walk(Some(9)), (Some(found(1, "aaaab")), None));
    assert_eq!(walk(Some(5)), (Some(found(1, "aaaab")), None));
    assert_eq!(walk(Some(4)), (Some(found(0, "aaaa")), Some('b')));
    assert_eq!(walk(Some(2)), (Some(found(0, "aa")), Some('a')));
    assert_eq!(walk(Some(0)), (None, Some('a')));
}
