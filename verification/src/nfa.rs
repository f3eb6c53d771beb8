//! Nondeterministic automata, built from patterns.
//!
//! Every pattern becomes a fragment of states that leads from a start state
//! to a given end state, with epsilon edges where patterns branch or repeat.
//! The automaton of a list of patterns joins one fragment per pattern under a
//! shared start state; the state that ends the fragment of a pattern accepts
//! for that pattern's place in the list. What the automaton accepts is given
//! by [`run`], and [`Nfa::for_patterns`] builds an automaton that accepts a
//! string for a place exactly when the pattern at that place describes it.

use crate::pattern::Pattern;
use vstd::prelude::*;

verus! {

/// An edge that is taken on any one character whose code lies from `low` to
/// `high`, both included.
#[derive(Copy, Clone, Debug, PartialEq, Eq)]
pub struct Link {
    /// The lowest code that the edge admits.
    pub low: u32,
    /// The highest code that the edge admits.
    pub high: u32,
    /// The state that the edge leads to.
    pub target: usize,
}

impl Link {
    /// Whether the edge is taken on the character with the code `code`.
    pub open spec fn admits_code(self, code: u32) -> bool {
        self.low <= code <= self.high
    }

    /// Whether the edge is taken on `c`.
    pub open spec fn admits(self, c: char) -> bool {
        self.admits_code(c as u32)
    }
}

/// A state of a nondeterministic automaton.
#[derive(Debug, PartialEq, Eq)]
pub struct State {
    /// The states reached from here without reading a character.
    pub epsilons: Vec<usize>,
    /// The edges taken from here on reading a character.
    pub links: Vec<Link>,
    /// The place of the pattern that this state accepts for, if any.
    pub rule: Option<usize>,
}

/// A nondeterministic automaton.
#[derive(Debug, PartialEq, Eq)]
pub struct Nfa {
    /// The states, each known by its index.
    pub states: Vec<State>,
    /// The state in which every run begins.
    pub start: usize,
}

/// Every edge leads to a state that exists.
pub open spec fn well_formed(states: Seq<State>) -> bool {
    &&& forall|q: int, j: int|
        0 <= q < states.len() && 0 <= j < states[q].epsilons@.len()
            ==> #[trigger] states[q].epsilons@[j] < states.len()
    &&& forall|q: int, j: int|
        0 <= q < states.len() && 0 <= j < states[q].links@.len()
            ==> (#[trigger] states[q].links@[j]).target < states.len()
}

/// No state accepts for a rule that is not below `bound`.
pub open spec fn rules_below(states: Seq<State>, bound: nat) -> bool {
    forall|q: int|
        0 <= q < states.len() ==> ((#[trigger] states[q]).rule matches Some(rule) ==> rule < bound)
}

/// There is a path of `n` edges that starts in state `q`, reads exactly `s`,
/// and ends in a state that accepts for `rule`.
pub open spec fn run(states: Seq<State>, q: int, s: Seq<char>, n: nat, rule: usize) -> bool
    decreases n,
{
    0 <= q < states.len() && if n == 0 {
        s.len() == 0 && states[q].rule == Some(rule)
    } else {
        (exists|j: int|
            0 <= j < states[q].epsilons@.len() && run(
                states,
                #[trigger] states[q].epsilons@[j] as int,
                s,
                (n - 1) as nat,
                rule,
            )) || (s.len() > 0 && exists|j: int|
            0 <= j < states[q].links@.len() && (#[trigger] states[q].links@[j]).admits(s[0])
                && run(
                states,
                states[q].links@[j].target as int,
                s.drop_first(),
                (n - 1) as nat,
                rule,
            ))
    }
}

/// The number of states in the fragment of `pattern`.
pub open spec fn size(pattern: Pattern) -> nat
    decreases pattern,
{
    match pattern {
        Pattern::Char(_) => 1,
        Pattern::Range { .. } => 1,
        Pattern::Sequence(first, second) => size(*first) + size(*second),
        Pattern::Either(first, second) => size(*first) + size(*second) + 1,
        Pattern::Many(body) => 1 + size(*body),
        Pattern::Always => 1,
        Pattern::Never => 1,
    }
}

/// The start state of the fragment of `pattern` whose states begin at `lo`.
pub open spec fn start_of(pattern: Pattern, lo: int) -> int
    decreases pattern,
{
    match pattern {
        Pattern::Char(_) => lo,
        Pattern::Range { .. } => lo,
        Pattern::Sequence(first, second) => start_of(*first, lo + size(*second)),
        Pattern::Either(first, second) => lo + size(*first) + size(*second),
        Pattern::Many(_) => lo,
        Pattern::Always => lo,
        Pattern::Never => lo,
    }
}

/// The state accepts for nothing, has no epsilon edge, and one edge: on the
/// codes from `low` to `high`, to `target`.
pub open spec fn reads(state: State, low: u32, high: u32, target: int) -> bool {
    &&& state.rule is None
    &&& state.epsilons@.len() == 0
    &&& state.links@.len() == 1
    &&& state.links@[0].low == low
    &&& state.links@[0].high == high
    &&& state.links@[0].target == target
}

/// The state accepts for nothing, and has no edges but the epsilon edges to
/// `targets`, in that order.
pub open spec fn forwards(state: State, targets: Seq<int>) -> bool {
    &&& state.rule is None
    &&& state.links@.len() == 0
    &&& state.epsilons@.len() == targets.len()
    &&& forall|j: int| 0 <= j < targets.len() ==> #[trigger] state.epsilons@[j] == targets[j]
}

/// The states from `lo` on, as many as `size(pattern)`, are the fragment of
/// `pattern` that ends in state `end`.
///
/// A character or a range is one state with one edge to `end`. A sequence is
/// the fragment of its second part, and before it the fragment of the first,
/// which ends where the second starts. An alternative is the two fragments,
/// both ending in `end`, and a state with an epsilon edge to each. A
/// repetition is a state with an epsilon edge to `end` and one to the
/// fragment of its body, which ends in that state again.
pub open spec fn fragment(states: Seq<State>, pattern: Pattern, lo: int, end: int) -> bool
    decreases pattern,
{
    &&& 0 <= lo
    &&& lo + size(pattern) <= states.len()
    &&& 0 <= end < states.len()
    &&& match pattern {
        Pattern::Char(c) => reads(states[lo], c as u32, c as u32, end),
        Pattern::Range { low, high } => reads(states[lo], low as u32, high as u32, end),
        Pattern::Sequence(first, second) => {
            &&& fragment(states, *second, lo, end)
            &&& fragment(states, *first, lo + size(*second), start_of(*second, lo))
        },
        Pattern::Either(first, second) => {
            &&& fragment(states, *first, lo, end)
            &&& fragment(states, *second, lo + size(*first), end)
            &&& forwards(
                states[lo + size(*first) + size(*second)],
                seq![start_of(*first, lo), start_of(*second, lo + size(*first))],
            )
        },
        Pattern::Many(body) => {
            &&& fragment(states, *body, lo + 1, lo)
            &&& forwards(states[lo], seq![end, start_of(*body, lo + 1)])
        },
        Pattern::Always => forwards(states[lo], seq![end]),
        Pattern::Never => forwards(states[lo], Seq::<int>::empty()),
    }
}

/// Two characters with the same code are the same character.
proof fn lemma_same_code(a: char, b: char)
    requires
        a as u32 == b as u32,
    ensures
        a == b,
{
}

/// Characters are ordered as their codes are.
proof fn lemma_code_order(a: char, b: char)
    ensures
        (a as u32 <= b as u32) == (a <= b),
{
}

/// A fragment has at least one state, and its start state is one of them.
pub proof fn lemma_start_in_fragment(pattern: Pattern, lo: int)
    ensures
        size(pattern) >= 1,
        lo <= start_of(pattern, lo) < lo + size(pattern),
    decreases pattern,
{
    match pattern {
        Pattern::Sequence(first, second) => {
            lemma_start_in_fragment(*first, lo + size(*second));
        },
        _ => {},
    }
}

/// A fragment stays a fragment when states outside it change or are added.
pub proof fn lemma_fragment_stable(
    before: Seq<State>,
    after: Seq<State>,
    pattern: Pattern,
    lo: int,
    end: int,
)
    requires
        fragment(before, pattern, lo, end),
        before.len() <= after.len(),
        forall|q: int| lo <= q < lo + size(pattern) ==> after[q] == before[q],
    ensures
        fragment(after, pattern, lo, end),
    decreases pattern,
{
    lemma_start_in_fragment(pattern, lo);
    match pattern {
        Pattern::Sequence(first, second) => {
            lemma_fragment_stable(before, after, *second, lo, end);
            lemma_fragment_stable(
                before,
                after,
                *first,
                lo + size(*second),
                start_of(*second, lo),
            );
        },
        Pattern::Either(first, second) => {
            lemma_fragment_stable(before, after, *first, lo, end);
            lemma_fragment_stable(before, after, *second, lo + size(*first), end);
        },
        Pattern::Many(body) => {
            lemma_fragment_stable(before, after, *body, lo + 1, lo);
        },
        _ => {},
    }
}

/// Whatever a run reads on its way through a fragment, the pattern describes.
///
/// A run that starts at the start of the fragment of `pattern` has a first
/// part that reads a string of the pattern and a rest that starts in `end`.
/// The result is the length of what the first part reads, and the number of
/// edges in the rest.
pub proof fn lemma_fragment_sound(
    states: Seq<State>,
    pattern: Pattern,
    lo: int,
    end: int,
    s: Seq<char>,
    n: nat,
    rule: usize,
) -> (cut: (int, nat))
    requires
        fragment(states, pattern, lo, end),
        run(states, start_of(pattern, lo), s, n, rule),
    ensures
        0 <= cut.0 <= s.len(),
        cut.1 < n,
        pattern.matches(s.take(cut.0)),
        run(states, end, s.skip(cut.0), cut.1, rule),
    decreases pattern, n,
{
    let start = start_of(pattern, lo);
    let rest = (n - 1) as nat;
    match pattern {
        Pattern::Char(c) => {
            lemma_same_code(s[0], c);
            (1, rest)
        },
        Pattern::Range { low, high } => {
            lemma_code_order(low, s[0]);
            lemma_code_order(s[0], high);
            (1, rest)
        },
        Pattern::Sequence(first, second) => {
            let (k1, m1) = lemma_fragment_sound(
                states,
                *first,
                lo + size(*second),
                start_of(*second, lo),
                s,
                n,
                rule,
            );
            let (k2, m2) = lemma_fragment_sound(states, *second, lo, end, s.skip(k1), m1, rule);
            let whole = s.take(k1 + k2);
            assert(whole.take(k1) =~= s.take(k1));
            assert(whole.skip(k1) =~= s.skip(k1).take(k2));
            assert(s.skip(k1).skip(k2) =~= s.skip(k1 + k2));
            (k1 + k2, m2)
        },
        Pattern::Either(first, second) => {
            let j = choose|j: int|
                0 <= j < states[start].epsilons@.len() && run(
                    states,
                    #[trigger] states[start].epsilons@[j] as int,
                    s,
                    rest,
                    rule,
                );
            if j == 0 {
                lemma_fragment_sound(states, *first, lo, end, s, rest, rule)
            } else {
                lemma_fragment_sound(states, *second, lo + size(*first), end, s, rest, rule)
            }
        },
        Pattern::Many(body) => {
            let j = choose|j: int|
                0 <= j < states[start].epsilons@.len() && run(
                    states,
                    #[trigger] states[start].epsilons@[j] as int,
                    s,
                    rest,
                    rule,
                );
            if j == 0 {
                assert(s.skip(0) =~= s);
                (0, rest)
            } else {
                let (k1, m1) = lemma_fragment_sound(states, *body, lo + 1, lo, s, rest, rule);
                let (k2, m2) = lemma_fragment_sound(states, pattern, lo, end, s.skip(k1), m1, rule);
                assert(s.skip(k1).skip(k2) =~= s.skip(k1 + k2));
                if k1 == 0 {
                    assert(s.skip(0) =~= s);
                    (k2, m2)
                } else {
                    let whole = s.take(k1 + k2);
                    assert(whole.take(k1) =~= s.take(k1));
                    assert(whole.skip(k1) =~= s.skip(k1).take(k2));
                    (k1 + k2, m2)
                }
            }
        },
        Pattern::Always => {
            assert(s.skip(0) =~= s);
            (0, rest)
        },
        Pattern::Never => { (0, rest) },
    }
}

/// Whatever the pattern describes, a run can read on its way through the
/// fragment.
///
/// Where the pattern describes `u` and a run of `n` edges from `end` reads
/// `t`, a run from the start of the fragment reads `u` and then `t`. The
/// result is the number of its edges.
pub proof fn lemma_fragment_complete(
    states: Seq<State>,
    pattern: Pattern,
    lo: int,
    end: int,
    u: Seq<char>,
    t: Seq<char>,
    n: nat,
    rule: usize,
) -> (m: nat)
    requires
        fragment(states, pattern, lo, end),
        pattern.matches(u),
        run(states, end, t, n, rule),
    ensures
        run(states, start_of(pattern, lo), u + t, m, rule),
    decreases pattern, u.len(),
{
    let start = start_of(pattern, lo);
    lemma_start_in_fragment(pattern, lo);
    match pattern {
        Pattern::Char(c) => {
            assert((u + t).drop_first() =~= t);
            n + 1
        },
        Pattern::Range { low, high } => {
            lemma_code_order(low, u[0]);
            lemma_code_order(u[0], high);
            assert((u + t).drop_first() =~= t);
            n + 1
        },
        Pattern::Sequence(first, second) => {
            let k = choose|k: int|
                0 <= k <= u.len() && (*first).matches(#[trigger] u.take(k)) && (*second).matches(
                    u.skip(k),
                );
            let m2 = lemma_fragment_complete(states, *second, lo, end, u.skip(k), t, n, rule);
            let m1 = lemma_fragment_complete(
                states,
                *first,
                lo + size(*second),
                start_of(*second, lo),
                u.take(k),
                u.skip(k) + t,
                m2,
                rule,
            );
            assert(u.take(k) + (u.skip(k) + t) =~= u + t);
            m1
        },
        Pattern::Either(first, second) => {
            if (*first).matches(u) {
                let m = lemma_fragment_complete(states, *first, lo, end, u, t, n, rule);
                assert(states[start].epsilons@[0] == start_of(*first, lo));
                m + 1
            } else {
                let m = lemma_fragment_complete(
                    states,
                    *second,
                    lo + size(*first),
                    end,
                    u,
                    t,
                    n,
                    rule,
                );
                assert(states[start].epsilons@[1] == start_of(*second, lo + size(*first)));
                m + 1
            }
        },
        Pattern::Many(body) => {
            if u.len() == 0 {
                assert(states[start].epsilons@[0] == end);
                n + 1
            } else {
                let k = choose|k: int|
                    1 <= k <= u.len() && (*body).matches(#[trigger] u.take(k)) && pattern.matches(
                        u.skip(k),
                    );
                let m2 = lemma_fragment_complete(states, pattern, lo, end, u.skip(k), t, n, rule);
                let m1 = lemma_fragment_complete(
                    states,
                    *body,
                    lo + 1,
                    lo,
                    u.take(k),
                    u.skip(k) + t,
                    m2,
                    rule,
                );
                assert(u.take(k) + (u.skip(k) + t) =~= u + t);
                assert(states[start].epsilons@[1] == start_of(*body, lo + 1));
                m1 + 1
            }
        },
        Pattern::Always => {
            assert(states[start].epsilons@[0] == end);
            n + 1
        },
        Pattern::Never => { n },
    }
}

/// The index of the state that accepts for the pattern at place `i`, where
/// the patterns before it have their states one after another: for each an
/// accepting state, then its fragment.
pub open spec fn offset_of(patterns: Seq<Pattern>, i: int) -> int
    decreases i,
{
    if i <= 0 {
        0
    } else {
        offset_of(patterns, i - 1) + 1 + size(patterns[i - 1])
    }
}

/// The states hold, at its offset, the accepting state of the pattern at
/// place `i`, which has no edges, and after it the fragment of the pattern,
/// which ends in that state.
pub open spec fn holds_rule(states: Seq<State>, patterns: Seq<Pattern>, i: int) -> bool {
    let at = offset_of(patterns, i);
    &&& 0 <= at
    &&& at + 1 + size(patterns[i]) <= states.len()
    &&& states[at].rule matches Some(r) && r == i
    &&& states[at].epsilons@.len() == 0
    &&& states[at].links@.len() == 0
    &&& fragment(states, patterns[i], at + 1, at)
}

impl Nfa {
    /// Whether the automaton accepts the string `s` for `rule`: some run from
    /// the start state reads exactly `s` and ends in a state that accepts for
    /// `rule`.
    pub open spec fn accepts(&self, s: Seq<char>, rule: usize) -> bool {
        exists|n: nat| run(self.states@, self.start as int, s, n, rule)
    }

    /// `first` is the least rule for which the automaton accepts `s`, if
    /// there is one.
    pub open spec fn first_accepted(&self, s: Seq<char>, first: Option<usize>) -> bool {
        match first {
            Some(rule) => self.accepts(s, rule) && forall|other: usize|
                other < rule ==> !#[trigger] self.accepts(s, other),
            None => forall|other: usize| !#[trigger] self.accepts(s, other),
        }
    }

    /// The automaton is that of `patterns`: it holds the states of each
    /// pattern, and last its start state, with an epsilon edge to the start
    /// of each fragment, in the order of the patterns.
    pub open spec fn joins(&self, patterns: Seq<Pattern>) -> bool {
        let root = offset_of(patterns, patterns.len() as int);
        &&& self.start == root
        &&& self.states@.len() == root + 1
        &&& forall|i: int| 0 <= i < patterns.len() ==> holds_rule(self.states@, patterns, i)
        &&& self.states@[root].rule is None
        &&& self.states@[root].links@.len() == 0
        &&& self.states@[root].epsilons@.len() == patterns.len()
        &&& forall|i: int|
            0 <= i < patterns.len() ==> #[trigger] self.states@[root].epsilons@[i] == start_of(
                patterns[i],
                offset_of(patterns, i) + 1,
            )
    }

    /// An automaton without states.
    pub fn new() -> (nfa: Nfa)
        ensures
            nfa.states@.len() == 0,
            nfa.start == 0,
    {
        Nfa { states: Vec::new(), start: 0 }
    }

    /// Add `state` to the automaton, and return its index.
    pub fn add_state(&mut self, state: State) -> (id: usize)
        requires
            well_formed(old(self).states@),
            forall|j: int|
                0 <= j < state.epsilons@.len() ==> #[trigger] state.epsilons@[j] <= old(
                    self,
                ).states@.len(),
            forall|j: int|
                0 <= j < state.links@.len() ==> (#[trigger] state.links@[j]).target <= old(
                    self,
                ).states@.len(),
        ensures
            well_formed(final(self).states@),
            final(self).states@ == old(self).states@.push(state),
            final(self).start == old(self).start,
            id == old(self).states@.len(),
    {
        let id = self.states.len();
        self.states.push(state);
        id
    }

    /// Add the fragment of `pattern` that ends in the state `end`, and return
    /// its start state. The states that were there stay as they are.
    pub fn add_pattern(&mut self, pattern: &Pattern, end: usize) -> (start: usize)
        requires
            well_formed(old(self).states@),
            end < old(self).states@.len(),
        ensures
            well_formed(final(self).states@),
            final(self).start == old(self).start,
            final(self).states@.len() == old(self).states@.len() + size(*pattern),
            final(self).states@.take(old(self).states@.len() as int) == old(self).states@,
            fragment(final(self).states@, *pattern, old(self).states@.len() as int, end as int),
            start == start_of(*pattern, old(self).states@.len() as int),
            forall|q: int|
                old(self).states@.len() <= q < final(self).states@.len() ==> (
                #[trigger] final(self).states@[q]).rule is None,
        decreases pattern,
    {
        let ghost lo = self.states@.len() as int;
        let ghost before = self.states@;
        match pattern {
            Pattern::Char(c) => {
                let code = *c as u32;
                let links = vec![Link { low: code, high: code, target: end }];
                let start = self.add_state(State { epsilons: Vec::new(), links, rule: None });
                start
            },
            Pattern::Range { low, high } => {
                let links = vec![Link { low: *low as u32, high: *high as u32, target: end }];
                let start = self.add_state(State { epsilons: Vec::new(), links, rule: None });
                start
            },
            Pattern::Sequence(first, second) => {
                let ghost first_pattern: Pattern = **first;
                let ghost second_pattern: Pattern = **second;
                let middle = self.add_pattern(second, end);
                let ghost between = self.states@;
                proof {
                    lemma_start_in_fragment(second_pattern, lo);
                }
                let start = self.add_pattern(first, middle);
                proof {
                    lemma_fragment_stable(between, self.states@, second_pattern, lo, end as int);
                    assert forall|q: int| lo <= q < self.states@.len() implies (
                    #[trigger] self.states@[q]).rule is None by {
                        if q < between.len() {
                            assert(between[q].rule is None);
                        }
                    }
                }
                start
            },
            Pattern::Either(first, second) => {
                let ghost first_pattern: Pattern = **first;
                let ghost second_pattern: Pattern = **second;
                let left = self.add_pattern(first, end);
                let ghost between = self.states@;
                let right = self.add_pattern(second, end);
                let ghost both = self.states@;
                proof {
                    lemma_start_in_fragment(first_pattern, lo);
                    lemma_start_in_fragment(second_pattern, lo + size(first_pattern));
                }
                let epsilons = vec![left, right];
                let start = self.add_state(State { epsilons, links: Vec::new(), rule: None });
                proof {
                    lemma_fragment_stable(between, self.states@, first_pattern, lo, end as int);
                    lemma_fragment_stable(
                        both,
                        self.states@,
                        second_pattern,
                        lo + size(first_pattern),
                        end as int,
                    );
                    assert forall|q: int| lo <= q < self.states@.len() implies (
                    #[trigger] self.states@[q]).rule is None by {
                        if q < between.len() {
                            assert(between[q].rule is None);
                        }
                    }
                }
                start
            },
            Pattern::Many(body) => {
                let ghost body_pattern: Pattern = **body;
                let hub = self.add_state(
                    State { epsilons: Vec::new(), links: Vec::new(), rule: None },
                );
                let ghost opened = self.states@;
                let inner = self.add_pattern(body, hub);
                let ghost built = self.states@;
                proof {
                    lemma_start_in_fragment(body_pattern, lo + 1);
                }
                let epsilons = vec![end, inner];
                self.states.set(hub, State { epsilons, links: Vec::new(), rule: None });
                proof {
                    lemma_fragment_stable(built, self.states@, body_pattern, lo + 1, lo);
                    assert(self.states@.take(lo) =~= built.take(lo));
                }
                hub
            },
            Pattern::Always => {
                let epsilons = vec![end];
                let start = self.add_state(State { epsilons, links: Vec::new(), rule: None });
                start
            },
            Pattern::Never => {
                let start = self.add_state(
                    State { epsilons: Vec::new(), links: Vec::new(), rule: None },
                );
                start
            },
        }
    }

    /// Build the automaton of `patterns`.
    ///
    /// It accepts a string for a place in the list exactly when the pattern
    /// at that place describes the string.
    pub fn for_patterns(patterns: &Vec<Pattern>) -> (nfa: Nfa)
        ensures
            well_formed(nfa.states@),
            nfa.start < nfa.states@.len(),
            nfa.joins(patterns@),
            rules_below(nfa.states@, patterns@.len()),
            forall|s: Seq<char>, rule: usize| #[trigger]
                nfa.accepts(s, rule) <==> (rule < patterns@.len() && patterns@[rule as int].matches(
                    s,
                )),
    {
        let mut nfa = Nfa::new();
        let mut starts: Vec<usize> = Vec::new();
        let mut i: usize = 0;
        while i < patterns.len()
            invariant
                0 <= i <= patterns.len(),
                well_formed(nfa.states@),
                nfa.states@.len() == offset_of(patterns@, i as int),
                starts@.len() == i,
                forall|k: int| 0 <= k < i ==> holds_rule(nfa.states@, patterns@, k),
                forall|k: int|
                    0 <= k < i ==> #[trigger] starts@[k] == start_of(
                        patterns@[k],
                        offset_of(patterns@, k) + 1,
                    ),
                forall|k: int| 0 <= k < i ==> #[trigger] starts@[k] < nfa.states@.len(),
                rules_below(nfa.states@, i as nat),
            decreases patterns.len() - i,
        {
            let ghost before = nfa.states@;
            let accept = nfa.add_state(
                State { epsilons: Vec::new(), links: Vec::new(), rule: Some(i) },
            );
            let ghost opened = nfa.states@;
            let start = nfa.add_pattern(&patterns[i], accept);
            starts.push(start);
            proof {
                let after = nfa.states@;
                lemma_start_in_fragment(patterns@[i as int], accept + 1);
                assert forall|q: int| 0 <= q < after.len() implies ((
                #[trigger] after[q]).rule matches Some(rule) ==> rule < i + 1) by {
                    if q == accept {
                        assert(opened[q].rule == Some(i));
                    }
                }
                assert(after[accept as int] == after.take(accept + 1)[accept as int]);
                assert forall|k: int| 0 <= k < i implies holds_rule(after, patterns@, k) by {
                    assert(holds_rule(before, patterns@, k));
                    let at = offset_of(patterns@, k);
                    assert forall|q: int| at <= q < at + 1 + size(patterns@[k]) implies after[q]
                        == before[q] by {
                        assert(after.take(accept + 1)[q] == after[q]);
                    }
                    lemma_fragment_stable(before, after, patterns@[k], at + 1, at);
                }
            }
            i = i + 1;
        }
        let ghost built = nfa.states@;
        let root = nfa.add_state(State { epsilons: starts, links: Vec::new(), rule: None });
        nfa.start = root;
        proof {
            let after = nfa.states@;
            assert forall|k: int| 0 <= k < patterns@.len() implies holds_rule(
                after,
                patterns@,
                k,
            ) by {
                assert(holds_rule(built, patterns@, k));
                let at = offset_of(patterns@, k);
                lemma_fragment_stable(built, after, patterns@[k], at + 1, at);
            }
            assert forall|s: Seq<char>, rule: usize| #[trigger]
                nfa.accepts(s, rule) <==> (rule < patterns@.len() && patterns@[rule as int].matches(
                    s,
                )) by {
                lemma_joined_language(nfa, patterns@, s, rule);
            }
        }
        nfa
    }
}

/// The automaton of a list of patterns accepts a string for a place exactly
/// when the pattern at that place describes the string.
pub proof fn lemma_joined_language(nfa: Nfa, patterns: Seq<Pattern>, s: Seq<char>, rule: usize)
    requires
        nfa.joins(patterns),
    ensures
        nfa.accepts(s, rule) <==> (rule < patterns.len() && patterns[rule as int].matches(s)),
{
    let states = nfa.states@;
    let root = nfa.start as int;
    if nfa.accepts(s, rule) {
        let n = choose|n: nat| run(states, root, s, n, rule);
        let rest = (n - 1) as nat;
        let j = choose|j: int|
            0 <= j < states[root].epsilons@.len() && run(
                states,
                #[trigger] states[root].epsilons@[j] as int,
                s,
                rest,
                rule,
            );
        assert(holds_rule(states, patterns, j));
        let at = offset_of(patterns, j);
        let (k, m) = lemma_fragment_sound(states, patterns[j], at + 1, at, s, rest, rule);
        assert(s.take(k) =~= s);
    }
    if rule < patterns.len() && patterns[rule as int].matches(s) {
        let i = rule as int;
        assert(holds_rule(states, patterns, i));
        let at = offset_of(patterns, i);
        let m = lemma_fragment_complete(
            states,
            patterns[i],
            at + 1,
            at,
            s,
            Seq::<char>::empty(),
            0,
            rule,
        );
        assert(states[root].epsilons@[i] == start_of(patterns[i], at + 1));
        assert(run(states, root, s, m + 1, rule));
    }
}

} // verus!
