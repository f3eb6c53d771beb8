//! Scanning: the walk of a deterministic automaton over the characters of a
//! reader.
//!
//! At each place the longest prefix of the input that the automaton yields a
//! rule on is the match, and the rule is the one that the automaton yields
//! on it. The walk may read past the end of the match; a bookmark brings the
//! reader back.

use crate::dfa::first_matching;
use crate::dfa::recognizes;
use crate::dfa::Dfa;
use crate::pattern::lemma_plain_length;
use crate::pattern::Pattern;
use crate::reader::Reader;
use crate::reader::Source;
use vstd::prelude::*;

verus! {

/// The state that the automaton is in when it has read `s` from state `q`,
/// if the characters led somewhere.
pub open spec fn state_after(dfa: Dfa, q: int, s: Seq<char>) -> Option<int>
    decreases s.len(),
{
    if s.len() == 0 {
        Some(q)
    } else {
        match dfa.step(q, s[0]) {
            Some(t) => state_after(dfa, t, s.drop_first()),
            None => None,
        }
    }
}

/// The length of the longest prefix of `w`, no longer than `limit`, on which
/// the automaton yields a rule.
pub open spec fn longest_within(dfa: Dfa, w: Seq<char>, limit: nat) -> Option<nat>
    decreases limit,
{
    if dfa.outcome(0, w.take(limit as int)) is Some {
        Some(limit)
    } else if limit == 0 {
        None
    } else {
        longest_within(dfa, w, (limit - 1) as nat)
    }
}

/// The length of the longest prefix of `w` on which the automaton yields a
/// rule.
pub open spec fn longest(dfa: Dfa, w: Seq<char>) -> Option<nat> {
    longest_within(dfa, w, w.len())
}

/// A match: a stretch of the input, and the rule that matched it.
pub struct Lexeme {
    /// The place of the rule among the rules of the automaton.
    pub rule: usize,
    /// The characters that were matched.
    pub text: Seq<char>,
}

/// How far a walk over `w` may go: to the end of `w`, or as far as the limit
/// allows, if there is one and it is less.
pub open spec fn reach(w: Seq<char>, limit: Option<usize>) -> nat {
    match limit {
        Some(most) => if most < w.len() {
            most as nat
        } else {
            w.len()
        },
        None => w.len(),
    }
}

/// The match at the start of `w` among the prefixes that the limit allows:
/// the longest of them on which the automaton yields a rule, with that rule.
pub open spec fn longest_lexeme_within(dfa: Dfa, w: Seq<char>, limit: Option<usize>) -> Option<
    Lexeme,
> {
    match longest_within(dfa, w, reach(w, limit)) {
        Some(l) => match dfa.outcome(0, w.take(l as int)) {
            Some(rule) => Some(Lexeme { rule, text: w.take(l as int) }),
            None => None,
        },
        None => None,
    }
}

/// The match at the start of `w`: the longest prefix on which the automaton
/// yields a rule, with that rule.
pub open spec fn longest_lexeme(dfa: Dfa, w: Seq<char>) -> Option<Lexeme> {
    longest_lexeme_within(dfa, w, None)
}

/// The matches that the automaton finds in `w`, one after another: at each
/// place the longest one, until the input ends or nothing more than the
/// empty string matches.
pub open spec fn scan(dfa: Dfa, w: Seq<char>) -> Seq<Lexeme>
    decreases w.len(),
{
    match longest_lexeme(dfa, w) {
        Some(lexeme) => if 0 < lexeme.text.len() <= w.len() {
            seq![lexeme] + scan(dfa, w.skip(lexeme.text.len() as int))
        } else {
            Seq::empty()
        },
        None => Seq::empty(),
    }
}

/// The number of characters that the matches cover.
pub open spec fn total_length(lexemes: Seq<Lexeme>) -> nat
    decreases lexemes.len(),
{
    if lexemes.len() == 0 {
        0
    } else {
        total_length(lexemes.drop_last()) + lexemes.last().text.len()
    }
}

/// A match: the rule that matched, and the characters that it matched.
#[derive(Debug, PartialEq, Eq)]
pub struct Match {
    /// The place of the rule among the rules of the automaton.
    pub rule: usize,
    /// The characters that were matched.
    pub lexeme: Vec<char>,
}

impl View for Match {
    type V = Lexeme;

    open spec fn view(&self) -> Lexeme {
        Lexeme { rule: self.rule, text: self.lexeme@ }
    }
}

impl Match {
    /// The number of characters that were matched.
    pub fn length(&self) -> (n: usize)
        ensures
            n == self@.text.len(),
    {
        self.lexeme.len()
    }
}

/// What the matches stand for, one by one.
pub open spec fn views(matches: Seq<Match>) -> Seq<Lexeme> {
    Seq::new(matches.len(), |i: int| matches[i]@)
}

/// What the automaton yields on a string is the mark of the state that the
/// string leads to.
pub proof fn lemma_outcome_of_state(dfa: Dfa, q: int, s: Seq<char>)
    ensures
        dfa.outcome(q, s) == match state_after(dfa, q, s) {
            Some(p) => dfa.states@[p].finalize,
            None => None,
        },
    decreases s.len(),
{
    if s.len() > 0 {
        match dfa.step(q, s[0]) {
            Some(t) => lemma_outcome_of_state(dfa, t, s.drop_first()),
            None => {},
        }
    }
}

/// One more character leads one step on.
pub proof fn lemma_state_after_push(dfa: Dfa, q: int, s: Seq<char>, c: char)
    ensures
        state_after(dfa, q, s.push(c)) == match state_after(dfa, q, s) {
            Some(p) => dfa.step(p, c),
            None => None,
        },
    decreases s.len(),
{
    let longer = s.push(c);
    if s.len() == 0 {
        match dfa.step(q, c) {
            Some(t) => {
                assert(state_after(dfa, t, longer.drop_first()) == Some(t));
            },
            None => {},
        }
    } else {
        assert(longer.drop_first() =~= s.drop_first().push(c));
        match dfa.step(q, s[0]) {
            Some(t) => lemma_state_after_push(dfa, t, s.drop_first(), c),
            None => {},
        }
    }
}

/// Where a prefix leads nowhere, no longer prefix leads anywhere.
pub proof fn lemma_dead_stays_dead(dfa: Dfa, w: Seq<char>, i: int, j: int)
    requires
        0 <= i <= j <= w.len(),
        state_after(dfa, 0, w.take(i)) is None,
    ensures
        state_after(dfa, 0, w.take(j)) is None,
        dfa.outcome(0, w.take(j)) is None,
    decreases j - i,
{
    if i < j {
        lemma_dead_stays_dead(dfa, w, i, j - 1);
        assert(w.take(j) =~= w.take(j - 1).push(w[j - 1]));
        lemma_state_after_push(dfa, 0, w.take(j - 1), w[j - 1]);
    }
    lemma_outcome_of_state(dfa, 0, w.take(j));
}

/// The longest match is a prefix on which the automaton yields a rule, and
/// on no longer prefix within the limit does it yield one.
pub proof fn lemma_longest_within(dfa: Dfa, w: Seq<char>, limit: nat)
    ensures
        match longest_within(dfa, w, limit) {
            Some(l) => l <= limit && dfa.outcome(0, w.take(l as int)) is Some && forall|k: int|
                l < k <= limit ==> (#[trigger] dfa.outcome(0, w.take(k))) is None,
            None => forall|k: int| 0 <= k <= limit ==> (#[trigger] dfa.outcome(0, w.take(k))) is None,
        },
    decreases limit,
{
    if !(dfa.outcome(0, w.take(limit as int)) is Some) && limit > 0 {
        lemma_longest_within(dfa, w, (limit - 1) as nat);
    }
}

/// A prefix on which the automaton yields a rule, and which no longer prefix
/// within the limit follows on which it yields one, is the longest match.
pub proof fn lemma_longest_is(dfa: Dfa, w: Seq<char>, limit: nat, l: nat)
    requires
        l <= limit,
        dfa.outcome(0, w.take(l as int)) is Some,
        forall|k: int| l < k <= limit ==> (#[trigger] dfa.outcome(0, w.take(k))) is None,
    ensures
        longest_within(dfa, w, limit) == Some(l),
    decreases limit,
{
    if l < limit {
        lemma_longest_is(dfa, w, (limit - 1) as nat, l);
    }
}

/// Where the automaton yields a rule on no prefix within the limit, there is
/// no match.
pub proof fn lemma_longest_is_none(dfa: Dfa, w: Seq<char>, limit: nat)
    requires
        forall|k: int| 0 <= k <= limit ==> (#[trigger] dfa.outcome(0, w.take(k))) is None,
    ensures
        longest_within(dfa, w, limit) is None,
    decreases limit,
{
    if limit > 0 {
        lemma_longest_is_none(dfa, w, (limit - 1) as nat);
    }
}

// ============
// === Laws ===
// ============

/// The match is the longest prefix that any of the patterns describes, and
/// its rule is the first of the patterns that describe it.
pub proof fn lemma_match_meaning(patterns: Seq<Pattern>, dfa: Dfa, w: Seq<char>)
    requires
        recognizes(dfa, patterns),
    ensures
        match longest(dfa, w) {
            Some(l) => l <= w.len() && dfa.outcome(0, w.take(l as int)) is Some && first_matching(
                patterns,
                w.take(l as int),
                dfa.outcome(0, w.take(l as int)),
            ) && forall|k: int, r: int|
                l < k <= w.len() && 0 <= r < patterns.len() ==> !(#[trigger] patterns[r]).matches(
                    #[trigger] w.take(k),
                ),
            None => forall|k: int, r: int|
                0 <= k <= w.len() && 0 <= r < patterns.len() ==> !(#[trigger] patterns[r]).matches(
                    #[trigger] w.take(k),
                ),
        },
{
    lemma_longest_within(dfa, w, w.len());
    match longest(dfa, w) {
        Some(l) => {
            assert forall|k: int, r: int|
                l < k <= w.len() && 0 <= r < patterns.len() implies !(#[trigger] patterns[r]).matches(
                #[trigger] w.take(k),
            ) by {
                assert(first_matching(patterns, w.take(k), dfa.outcome(0, w.take(k))));
            }
        },
        None => {
            assert forall|k: int, r: int|
                0 <= k <= w.len() && 0 <= r < patterns.len() implies !(#[trigger] patterns[r]).matches(
                #[trigger] w.take(k),
            ) by {
                assert(first_matching(patterns, w.take(k), dfa.outcome(0, w.take(k))));
            }
        },
    }
}

/// A plain pattern matches by its structure: where it is the one rule, the
/// match is the stretch of as many characters as the pattern is made of, if
/// the pattern describes that stretch, and else there is none.
pub proof fn lemma_plain_match(pattern: Pattern, dfa: Dfa, w: Seq<char>)
    requires
        recognizes(dfa, seq![pattern]),
        pattern.plain(),
    ensures
        pattern.plain_length() <= w.len() && pattern.matches(w.take(pattern.plain_length() as int))
            ==> longest_lexeme(dfa, w) == Some(
            Lexeme { rule: 0, text: w.take(pattern.plain_length() as int) },
        ),
        !(pattern.plain_length() <= w.len() && pattern.matches(
            w.take(pattern.plain_length() as int),
        )) ==> longest_lexeme(dfa, w) is None,
{
    let patterns = seq![pattern];
    let n = pattern.plain_length();
    assert forall|k: int| 0 <= k <= w.len() && k != n implies (#[trigger] dfa.outcome(
        0,
        w.take(k),
    )) is None by {
        if dfa.outcome(0, w.take(k)) is Some {
            lemma_plain_length(pattern, w.take(k));
        }
    }
    if n <= w.len() {
        if pattern.matches(w.take(n as int)) {
            assert(patterns[0].matches(w.take(n as int)));
            lemma_longest_is(dfa, w, w.len(), n);
        } else {
            lemma_longest_is_none(dfa, w, w.len());
        }
    } else {
        lemma_longest_is_none(dfa, w, w.len());
    }
}

/// The longest match wins: where a pattern describes a prefix of the input,
/// the match is at least as long as that prefix, wherever the pattern stands
/// among the patterns.
pub proof fn lemma_longest_wins(patterns: Seq<Pattern>, dfa: Dfa, w: Seq<char>, r: int, k: int)
    requires
        recognizes(dfa, patterns),
        0 <= r < patterns.len(),
        0 <= k <= w.len(),
        patterns[r].matches(w.take(k)),
    ensures
        longest(dfa, w) matches Some(l) && k <= l,
{
    lemma_match_meaning(patterns, dfa, w);
}

/// Of two patterns that describe the match, the one declared first wins: the
/// rule of the match is never the later of the two.
pub proof fn lemma_first_declared_wins(
    patterns: Seq<Pattern>,
    dfa: Dfa,
    w: Seq<char>,
    i: int,
    j: int,
)
    requires
        recognizes(dfa, patterns),
        0 <= i < j < patterns.len(),
        longest(dfa, w) matches Some(l) && patterns[i].matches(w.take(l as int))
            && patterns[j].matches(w.take(l as int)),
    ensures
        longest(dfa, w) matches Some(l) && dfa.outcome(0, w.take(l as int)) matches Some(rule)
            && rule <= i,
{
    lemma_match_meaning(patterns, dfa, w);
}

// ================
// === The walk ===
// ================

/// Find the match at the place that the reader reads at, and move the reader
/// past it.
///
/// The match is the longest stretch of the input ahead on which the
/// automaton yields a rule; where there is none, the reader stays where it
/// is. The walk may read further than the match ends: it sets the bookmark
/// `mark` where it starts, goes back to it, and releases it at the end.
pub fn longest_match<S: Source>(dfa: &Dfa, reader: &mut Reader<S>, mark: &str) -> (found: Option<
    Match,
>)
    requires
        dfa.well_formed(),
        old(reader).wf(),
    ensures
        final(reader).wf(),
        final(reader)@.stream == old(reader)@.stream,
        final(reader)@.bookmarks == old(reader)@.bookmarks.remove(mark@),
        match found {
            Some(m) => longest_lexeme(*dfa, old(reader)@.rest()) == Some(m@)
                && final(reader)@.offset == old(reader)@.offset + m@.text.len(),
            None => longest_lexeme(*dfa, old(reader)@.rest()) is None && final(reader)@.offset
                == old(reader)@.offset,
        },
{
    longest_match_within(dfa, reader, mark, None)
}

/// As `longest_match`, with a limit to the walk: where `limit` holds a
/// number, the walk reads no more than that many characters, and the match
/// is the longest among the stretches that are no longer.
pub fn longest_match_within<S: Source>(
    dfa: &Dfa,
    reader: &mut Reader<S>,
    mark: &str,
    limit: Option<usize>,
) -> (found: Option<Match>)
    requires
        dfa.well_formed(),
        old(reader).wf(),
    ensures
        final(reader).wf(),
        final(reader)@.stream == old(reader)@.stream,
        final(reader)@.bookmarks == old(reader)@.bookmarks.remove(mark@),
        match found {
            Some(m) => longest_lexeme_within(*dfa, old(reader)@.rest(), limit) == Some(m@)
                && final(reader)@.offset == old(reader)@.offset + m@.text.len(),
            None => longest_lexeme_within(*dfa, old(reader)@.rest(), limit) is None
                && final(reader)@.offset == old(reader)@.offset,
        },
{
    proof {
        reader.lemma_within_buffer();
    }
    reader.create_bookmark(mark);
    let ghost start = reader@;
    let ghost w = start.rest();
    let mut state: usize = 0;
    let mut length: usize = 0;
    let mut best: Option<(usize, usize)> = None;
    match dfa.states[0].finalize {
        Some(rule) => {
            best = Some((rule, 0));
        },
        None => {},
    }
    proof {
        lemma_outcome_of_state(*dfa, 0, w.take(0));
    }
    let mut alive = true;
    while alive
        invariant
            dfa.well_formed(),
            reader.wf(),
            reader@.stream == start.stream,
            reader@.bookmarks == start.bookmarks,
            start.bookmarks.contains_key(mark@),
            start.bookmarks[mark@] == start.offset,
            start.offset <= start.stream.len(),
            w == start.rest(),
            reader@.offset == start.offset + length,
            length <= reach(w, limit),
            state < dfa.states@.len(),
            state_after(*dfa, 0, w.take(length as int)) == Some(state as int),
            match best {
                Some((rule, l)) => l <= length && dfa.outcome(0, w.take(l as int)) == Some(rule)
                    && forall|k: int|
                    l < k <= length ==> (#[trigger] dfa.outcome(0, w.take(k))) is None,
                None => forall|k: int|
                    0 <= k <= length ==> (#[trigger] dfa.outcome(0, w.take(k))) is None,
            },
            !alive ==> forall|k: int|
                length < k <= reach(w, limit) ==> (#[trigger] dfa.outcome(0, w.take(k))) is None,
        decreases
                w.len() - length + if alive {
                    1nat
                } else {
                    0nat
                },
    {
        let capped = match limit {
            Some(most) => length >= most,
            None => false,
        };
        let next = if capped {
            None
        } else {
            reader.peek()
        };
        match next {
            None => {
                alive = false;
            },
            Some(c) => {
                proof {
                    assert(w.take(length + 1) =~= w.take(length as int).push(c));
                    lemma_state_after_push(*dfa, 0, w.take(length as int), c);
                    lemma_outcome_of_state(*dfa, 0, w.take(length + 1));
                }
                match dfa.next_state(state, c) {
                    None => {
                        alive = false;
                        proof {
                            assert forall|k: int| length < k <= w.len() implies (
                            #[trigger] dfa.outcome(0, w.take(k))) is None by {
                                lemma_dead_stays_dead(*dfa, w, length + 1, k);
                            }
                        }
                    },
                    Some(t) => {
                        let _ = reader.consume();
                        proof {
                            reader.lemma_within_buffer();
                            reader.lemma_retention();
                            assert(reader.retained_from() <= reader@.bookmarks[mark@]);
                        }
                        length = length + 1;
                        state = t;
                        match dfa.states[t].finalize {
                            Some(rule) => {
                                best = Some((rule, length));
                            },
                            None => {},
                        }
                    },
                }
            },
        }
    }
    let _ = reader.rewind(mark);
    match best {
        None => {
            let _ = reader.release(mark);
            proof {
                lemma_longest_is_none(*dfa, w, reach(w, limit));
            }
            None
        },
        Some((rule, l)) => {
            proof {
                lemma_longest_is(*dfa, w, reach(w, limit), l as nat);
            }
            let mut lexeme: Vec<char> = Vec::new();
            let mut i: usize = 0;
            while i < l
                invariant
                    i <= l,
                    l <= w.len(),
                    reader.wf(),
                    reader@.stream == start.stream,
                    reader@.bookmarks == start.bookmarks,
                    start.offset <= start.stream.len(),
                    w == start.rest(),
                    reader@.offset == start.offset + i,
                    lexeme@ == w.take(i as int),
                decreases l - i,
            {
                match reader.consume() {
                    Some(c) => {
                        lexeme.push(c);
                    },
                    None => {},
                }
                i = i + 1;
            }
            let _ = reader.release(mark);
            Some(Match { rule, lexeme })
        },
    }
}

/// Find the matches ahead of the reader, one after another, and move the
/// reader past them.
///
/// The walk stops where the input ends, or where nothing matches but the
/// empty string. It uses the bookmark `mark` as `longest_match` does.
pub fn tokenize<S: Source>(dfa: &Dfa, reader: &mut Reader<S>, mark: &str) -> (matches: Vec<Match>)
    requires
        dfa.well_formed(),
        old(reader).wf(),
    ensures
        final(reader).wf(),
        final(reader)@.stream == old(reader)@.stream,
        final(reader)@.bookmarks == old(reader)@.bookmarks.remove(mark@),
        views(matches@) == scan(*dfa, old(reader)@.rest()),
        final(reader)@.offset == old(reader)@.offset + total_length(views(matches@)),
        scan(*dfa, final(reader)@.rest()) == Seq::<Lexeme>::empty(),
{
    let _ = reader.release(mark);
    let ghost start = reader@;
    let ghost w = start.rest();
    let mut matches: Vec<Match> = Vec::new();
    let mut going = true;
    proof {
        reader.lemma_within_buffer();
    }
    while going
        invariant
            dfa.well_formed(),
            reader.wf(),
            reader@.stream == start.stream,
            reader@.bookmarks == start.bookmarks,
            start.bookmarks == old(reader)@.bookmarks.remove(mark@),
            start.stream == old(reader)@.stream,
            start.offset == old(reader)@.offset,
            w == start.rest(),
            start.offset <= reader@.offset <= start.stream.len(),
            scan(*dfa, w) == views(matches@) + scan(*dfa, reader@.rest()),
            reader@.offset == start.offset + total_length(views(matches@)),
            !going ==> scan(*dfa, reader@.rest()) == Seq::<Lexeme>::empty(),
        decreases
                start.stream.len() - reader@.offset + if going {
                    1nat
                } else {
                    0nat
                },
    {
        let ghost before = reader@;
        let ghost found_so_far = views(matches@);
        let found = longest_match(dfa, reader, mark);
        proof {
            reader.lemma_within_buffer();
            assert(reader@.bookmarks =~= start.bookmarks);
        }
        match found {
            Some(m) => {
                if m.length() > 0 {
                    proof {
                        let len = m@.text.len() as int;
                        assert(reader@.rest() =~= before.rest().skip(len));
                    }
                    matches.push(m);
                    proof {
                        assert(views(matches@).drop_last() =~= found_so_far);
                    }
                } else {
                    going = false;
                }
            },
            None => {
                going = false;
            },
        }
    }
    matches
}

} // verus!
