//! Deterministic automata, built from nondeterministic ones by the subset
//! construction.
//!
//! A state of the deterministic automaton stands for a set of states of the
//! nondeterministic one. Its transitions are ranges of character codes that
//! do not overlap; a character that no range admits leads nowhere. A state is
//! marked with the least rule that a member of its set accepts for, so that
//! of two rules that accept the same string the one declared first wins.

use crate::alphabet::bounded;
use crate::alphabet::divisions;
use crate::alphabet::increasing;
use crate::alphabet::lemma_outside_next;
use crate::alphabet::lemma_segment_next;
use crate::alphabet::marks;
use crate::alphabet::outside;
use crate::nfa;
use crate::nfa::Nfa;
use crate::pattern::Pattern;
use crate::subset::accepted_from;
use crate::subset::accepting;
use crate::subset::closed;
use crate::subset::closure;
use crate::subset::closure_of;
use crate::subset::first_accepted_from;
use crate::subset::first_accepting;
use crate::subset::first_rule;
use crate::subset::has_member;
use crate::subset::is_empty;
use crate::subset::lemma_accepts_empty;
use crate::subset::lemma_closure_is_closed;
use crate::subset::lemma_start_set;
use crate::subset::lemma_step_backward;
use crate::subset::lemma_step_forward;
use crate::subset::moved;
use crate::subset::next_set;
use crate::subset::same_set;
use crate::subset::singleton;
use crate::subset::singleton_set;
use vstd::prelude::*;
use vstd::set_lib::lemma_int_range;
use vstd::set_lib::lemma_len_subset;
use vstd::set_lib::set_int_range;

verus! {

/// A transition: on any one character whose code lies from `low` to `high`,
/// both included, the automaton goes to the state `target`.
#[derive(Copy, Clone, Debug, PartialEq, Eq)]
pub struct Transition {
    /// The lowest code that the transition admits.
    pub low: u32,
    /// The highest code that the transition admits.
    pub high: u32,
    /// The state that the transition leads to.
    pub target: usize,
}

impl Transition {
    /// Whether the transition is taken on the character with the code `code`.
    pub open spec fn admits_code(self, code: u32) -> bool {
        self.low <= code <= self.high
    }

    /// Whether the transition is taken on `c`.
    pub open spec fn admits(self, c: char) -> bool {
        self.admits_code(c as u32)
    }
}

/// A state of a deterministic automaton.
#[derive(Debug, PartialEq, Eq)]
pub struct State {
    /// The transitions, in increasing order of their codes.
    pub transitions: Vec<Transition>,
    /// The rule that matches when the input ends here, if any.
    pub finalize: Option<usize>,
}

/// A deterministic automaton. Every run begins in state 0.
#[derive(Debug, PartialEq, Eq)]
pub struct Dfa {
    /// The states, each known by its index.
    pub states: Vec<State>,
}

/// The transitions stand in increasing order and no two of them overlap.
pub open spec fn disjoint(row: Seq<Transition>) -> bool {
    forall|a: int, b: int|
        0 <= a < b < row.len() ==> (#[trigger] row[a]).high < (#[trigger] row[b]).low
}

/// One of the transitions is taken on `code`.
pub open spec fn admitted(row: Seq<Transition>, code: u32) -> bool {
    exists|a: int| 0 <= a < row.len() && (#[trigger] row[a]).admits_code(code)
}

impl Dfa {
    /// The automaton has a state, the transitions of each state do not
    /// overlap, and each leads to a state that exists.
    pub open spec fn well_formed(&self) -> bool {
        &&& self.states@.len() > 0
        &&& forall|q: int|
            0 <= q < self.states@.len() ==> disjoint((#[trigger] self.states@[q]).transitions@)
        &&& forall|q: int, j: int|
            0 <= q < self.states@.len() && 0 <= j < self.states@[q].transitions@.len() ==> {
                let t = #[trigger] self.states@[q].transitions@[j];
                t.low <= t.high && t.target < self.states@.len()
            }
    }

    /// The state that follows state `q` on the character `c`, if there is
    /// one.
    pub open spec fn step(&self, q: int, c: char) -> Option<int> {
        let row = self.states@[q].transitions@;
        if admitted(row, c as u32) {
            let a = choose|a: int| 0 <= a < row.len() && (#[trigger] row[a]).admits_code(c as u32);
            Some(row[a].target as int)
        } else {
            None
        }
    }

    /// The rule that matches when the automaton reads exactly `s` from state
    /// `q`, if there is one.
    pub open spec fn outcome(&self, q: int, s: Seq<char>) -> Option<usize>
        decreases s.len(),
    {
        if s.len() == 0 {
            self.states@[q].finalize
        } else {
            match self.step(q, s[0]) {
                Some(t) => self.outcome(t, s.drop_first()),
                None => None,
            }
        }
    }
}

// ===========================
// === Counting the states ===
// ===========================

/// Two to the power of `n`.
pub open spec fn pow2(n: nat) -> nat
    decreases n,
{
    if n == 0 {
        1
    } else {
        2 * pow2((n - 1) as nat)
    }
}

/// The number whose binary digits are the flags of the set.
spec fn code_of(set: Seq<bool>) -> nat
    decreases set.len(),
{
    if set.len() == 0 {
        0
    } else {
        2 * code_of(set.drop_last()) + if set.last() {
            1nat
        } else {
            0nat
        }
    }
}

/// The number of a set of `n` states is below two to the power of `n`.
proof fn lemma_code_bound(set: Seq<bool>)
    ensures
        code_of(set) < pow2(set.len()),
    decreases set.len(),
{
    if set.len() > 0 {
        lemma_code_bound(set.drop_last());
    }
}

/// Two sets of as many states with the same number are the same set.
proof fn lemma_code_injective(a: Seq<bool>, b: Seq<bool>)
    requires
        a.len() == b.len(),
        code_of(a) == code_of(b),
    ensures
        a == b,
    decreases a.len(),
{
    if a.len() > 0 {
        lemma_code_injective(a.drop_last(), b.drop_last());
        assert(b =~= b.drop_last().push(b.last()));
    }
}

/// There are no more than two to the power of `n` different sets of `n`
/// states.
proof fn lemma_distinct_sets_bounded(sets: Seq<Vec<bool>>, n: nat)
    requires
        forall|k: int| 0 <= k < sets.len() ==> (#[trigger] sets[k])@.len() == n,
        forall|a: int, b: int|
            0 <= a < b < sets.len() ==> (#[trigger] sets[a])@ != (#[trigger] sets[b])@,
    ensures
        sets.len() <= pow2(n),
{
    let codes = Seq::new(sets.len(), |k: int| code_of(sets[k]@) as int);
    assert forall|i: int, j: int| 0 <= i < codes.len() && 0 <= j < codes.len() && i != j implies codes[i]
        != codes[j] by {
        if codes[i] == codes[j] {
            lemma_code_injective(sets[i]@, sets[j]@);
        }
    }
    codes.unique_seq_to_set();
    let range = set_int_range(0, pow2(n) as int);
    lemma_int_range(0, pow2(n) as int);
    assert forall|x: int| codes.to_set().contains(x) implies range.contains(x) by {
        let k = choose|k: int| 0 <= k < codes.len() && codes[k] == x;
        lemma_code_bound(sets[k]@);
    }
    lemma_len_subset(codes.to_set(), range);
}

// ===============================
// === The subset construction ===
// ===============================

/// Every set is closed, and no two of them are the same.
pub open spec fn sets_ok(sets: Seq<Vec<bool>>, states: Seq<nfa::State>) -> bool {
    &&& forall|k: int| 0 <= k < sets.len() ==> closed(states, (#[trigger] sets[k])@)
    &&& forall|a: int, b: int|
        0 <= a < b < sets.len() ==> (#[trigger] sets[a])@ != (#[trigger] sets[b])@
}

/// `after` begins with the sets of `before`.
pub open spec fn extends(before: Seq<Vec<bool>>, after: Seq<Vec<bool>>) -> bool {
    &&& before.len() <= after.len()
    &&& forall|k: int| 0 <= k < before.len() ==> #[trigger] after[k] == before[k]
}

/// The transitions are those of the state that stands for `set`: they do not
/// overlap, one of them is taken on a code exactly when some state follows
/// `set` on that code, and it leads to the state that stands for the set that
/// follows.
pub open spec fn row_ok(
    row: Seq<Transition>,
    sets: Seq<Vec<bool>>,
    states: Seq<nfa::State>,
    set: Seq<bool>,
) -> bool {
    &&& disjoint(row)
    &&& forall|a: int|
        0 <= a < row.len() ==> (#[trigger] row[a]).low <= row[a].high && row[a].target
            < sets.len()
    &&& forall|a: int, code: u32|
        0 <= a < row.len() && (#[trigger] row[a].admits_code(code)) ==> sets[row[a].target as int]@
            == next_set(states, set, code) && !is_empty(next_set(states, set, code))
    &&& forall|code: u32|
        !is_empty(#[trigger] next_set(states, set, code)) ==> admitted(row, code)
}

/// The state is the one that stands for set `k`.
pub open spec fn state_ok(
    state: State,
    sets: Seq<Vec<bool>>,
    states: Seq<nfa::State>,
    k: int,
) -> bool {
    &&& row_ok(state.transitions@, sets, states, sets[k]@)
    &&& first_accepting(states, sets[k]@, state.finalize)
}

/// The automaton has one state for each of the sets, and its first state
/// stands for the closure of the start state.
pub open spec fn represents(dfa: Dfa, sets: Seq<Vec<bool>>, nfa: Nfa) -> bool {
    &&& sets.len() > 0
    &&& dfa.states@.len() == sets.len()
    &&& sets_ok(sets, nfa.states@)
    &&& sets[0]@ == closure_of(nfa.states@, singleton(nfa.states@.len(), nfa.start as int))
    &&& forall|k: int|
        0 <= k < sets.len() ==> state_ok(#[trigger] dfa.states@[k], sets, nfa.states@, k)
}

/// What holds of a row holds of it when sets are added.
proof fn lemma_row_stable(
    row: Seq<Transition>,
    before: Seq<Vec<bool>>,
    after: Seq<Vec<bool>>,
    states: Seq<nfa::State>,
    set: Seq<bool>,
)
    requires
        row_ok(row, before, states, set),
        extends(before, after),
    ensures
        row_ok(row, after, states, set),
{
    assert forall|a: int, code: u32|
        0 <= a < row.len() && (#[trigger] row[a].admits_code(code)) implies after[row[a].target as int]@
        == next_set(states, set, code) && !is_empty(next_set(states, set, code)) by {}
}

/// The place of `set` among the sets, where it is added if it is not there.
fn find_or_add(nfa: &Nfa, sets: &mut Vec<Vec<bool>>, set: Vec<bool>) -> (index: usize)
    requires
        sets_ok(old(sets)@, nfa.states@),
        closed(nfa.states@, set@),
    ensures
        sets_ok(final(sets)@, nfa.states@),
        extends(old(sets)@, final(sets)@),
        index < final(sets)@.len(),
        final(sets)@[index as int]@ == set@,
{
    let mut k: usize = 0;
    while k < sets.len()
        invariant
            k <= sets.len(),
            sets@ == old(sets)@,
            sets_ok(sets@, nfa.states@),
            closed(nfa.states@, set@),
            forall|a: int| 0 <= a < k ==> (#[trigger] sets@[a])@ != set@,
        decreases sets.len() - k,
    {
        if same_set(&sets[k], &set) {
            return k;
        }
        k = k + 1;
    }
    sets.push(set);
    k
}

/// Build the transitions of the state that stands for set `i`, adding the
/// sets that they lead to where they are new.
fn build_row(nfa: &Nfa, points: &Vec<u64>, sets: &mut Vec<Vec<bool>>, i: usize) -> (row: Vec<
    Transition,
>)
    requires
        nfa::well_formed(nfa.states@),
        increasing(points@),
        bounded(points@),
        marks(points@, nfa.states@),
        sets_ok(old(sets)@, nfa.states@),
        i < old(sets)@.len(),
    ensures
        sets_ok(final(sets)@, nfa.states@),
        extends(old(sets)@, final(sets)@),
        row_ok(row@, final(sets)@, nfa.states@, old(sets)@[i as int]@),
{
    let ghost states = nfa.states@;
    let ghost set = sets@[i as int]@;
    let mut row: Vec<Transition> = Vec::new();
    if points.len() == 0 {
        proof {
            assert forall|code: u32| !is_empty(#[trigger] next_set(states, set, code)) implies admitted(
                row@,
                code,
            ) by {
                lemma_outside_next(points@, states, set, code);
            }
        }
        return row;
    }
    let mut k: usize = 0;
    while k + 1 < points.len()
        invariant
            k < points.len(),
            states == nfa.states@,
            nfa::well_formed(states),
            increasing(points@),
            bounded(points@),
            marks(points@, states),
            sets_ok(sets@, states),
            extends(old(sets)@, sets@),
            i < sets@.len(),
            sets@[i as int]@ == set,
            disjoint(row@),
            forall|a: int|
                0 <= a < row@.len() ==> (#[trigger] row@[a]).low <= row@[a].high && row@[a].high
                    < points@[k as int] && row@[a].target < sets@.len(),
            forall|a: int, code: u32|
                0 <= a < row@.len() && (#[trigger] row@[a].admits_code(code)) ==> sets@[row@[a].target as int]@
                    == next_set(states, set, code) && !is_empty(next_set(states, set, code)),
            forall|code: u32|
                points@[0] <= code < points@[k as int] && !is_empty(
                    #[trigger] next_set(states, set, code),
                ) ==> admitted(row@, code),
        decreases points.len() - k,
    {
        let first = points[k];
        let beyond = points[k + 1];
        let low: u32 = first as u32;
        let high: u32 = (beyond - 1) as u32;
        let step = moved(nfa, &sets[i], low);
        let next = closure(nfa, step);
        let ghost old_row = row@;
        proof {
            lemma_closure_is_closed(states, step@);
        }
        let found = has_member(&next);
        if found {
            let target = find_or_add(nfa, sets, next);
            row.push(Transition { low, high, target });
        }
        proof {
            let new_row = row@;
            assert forall|a: int, code: u32|
                0 <= a < new_row.len() && (#[trigger] new_row[a].admits_code(code)) implies sets@[new_row[a].target as int]@
                == next_set(states, set, code) && !is_empty(next_set(states, set, code)) by {
                if a >= old_row.len() {
                    lemma_segment_next(points@, states, set, k as int, code);
                }
            }
            assert forall|code: u32|
                points@[0] <= code < points@[k + 1] && !is_empty(
                    #[trigger] next_set(states, set, code),
                ) implies admitted(new_row, code) by {
                if code < points@[k as int] {
                    let a = choose|a: int|
                        0 <= a < old_row.len() && (#[trigger] old_row[a]).admits_code(code);
                    assert(new_row[a].admits_code(code));
                } else {
                    lemma_segment_next(points@, states, set, k as int, code);
                    assert(new_row[old_row.len() as int].admits_code(code));
                }
            }
        }
        k = k + 1;
    }
    proof {
        assert forall|code: u32| !is_empty(#[trigger] next_set(states, set, code)) implies admitted(
            row@,
            code,
        ) by {
            if outside(points@, code) {
                lemma_outside_next(points@, states, set, code);
            }
        }
    }
    row
}

impl Dfa {
    /// The state that follows state `q` on the character `c`, if there is
    /// one.
    pub fn next_state(&self, q: usize, c: char) -> (next: Option<usize>)
        requires
            self.well_formed(),
            q < self.states@.len(),
        ensures
            match next {
                Some(t) => self.step(q as int, c) == Some(t as int) && t < self.states@.len(),
                None => self.step(q as int, c) is None,
            },
    {
        let code = c as u32;
        let row = &self.states[q].transitions;
        let mut j: usize = 0;
        while j < row.len()
            invariant
                j <= row@.len(),
                code == c as u32,
                self.well_formed(),
                q < self.states@.len(),
                row@ == self.states@[q as int].transitions@,
                forall|a: int| 0 <= a < j ==> !(#[trigger] row@[a]).admits_code(code),
            decreases row@.len() - j,
        {
            let transition = row[j];
            if transition.low <= code && code <= transition.high {
                proof {
                    let a = choose|a: int|
                        0 <= a < row@.len() && (#[trigger] row@[a]).admits_code(code);
                }
                return Some(transition.target);
            }
            j = j + 1;
        }
        None
    }

    /// Build the deterministic automaton of `nfa`.
    ///
    /// Each of its states stands for a set of states of `nfa`, the first for
    /// what epsilon edges reach from the start state. On every string it
    /// yields the least rule for which `nfa` accepts the string, and none
    /// where `nfa` accepts it for no rule.
    pub fn from_nfa(nfa: &Nfa) -> (dfa: Dfa)
        requires
            nfa::well_formed(nfa.states@),
            nfa.start < nfa.states@.len(),
        ensures
            dfa.well_formed(),
            exists|sets: Seq<Vec<bool>>| #[trigger] represents(dfa, sets, *nfa),
            forall|s: Seq<char>| nfa.first_accepted(s, #[trigger] dfa.outcome(0, s)),
            forall|bound: nat| nfa::rules_below(nfa.states@, bound) ==> marks_valid(dfa, bound),
    {
        let points = divisions(nfa);
        let n = nfa.states.len();
        let seed = singleton_set(n, nfa.start);
        let start_set = closure(nfa, seed);
        proof {
            lemma_closure_is_closed(nfa.states@, seed@);
        }
        let mut sets: Vec<Vec<bool>> = Vec::new();
        sets.push(start_set);
        let mut states: Vec<State> = Vec::new();
        let mut i: usize = 0;
        proof {
            lemma_distinct_sets_bounded(sets@, n as nat);
        }
        while i < sets.len()
            invariant
                i <= sets@.len(),
                states@.len() == i,
                n == nfa.states@.len(),
                nfa::well_formed(nfa.states@),
                increasing(points@),
                bounded(points@),
                marks(points@, nfa.states@),
                sets@.len() > 0,
                sets@.len() <= pow2(n as nat),
                sets_ok(sets@, nfa.states@),
                sets@[0]@ == closure_of(nfa.states@, singleton(n as nat, nfa.start as int)),
                forall|k: int|
                    0 <= k < i ==> state_ok(#[trigger] states@[k], sets@, nfa.states@, k),
            decreases pow2(n as nat) - sets@.len(), sets@.len() - i,
        {
            let ghost before = sets@;
            let ghost done = states@;
            let transitions = build_row(nfa, &points, &mut sets, i);
            let finalize = first_rule(nfa, &sets[i]);
            states.push(State { transitions, finalize });
            proof {
                lemma_distinct_sets_bounded(sets@, n as nat);
                assert forall|k: int| 0 <= k < i + 1 implies state_ok(
                    #[trigger] states@[k],
                    sets@,
                    nfa.states@,
                    k,
                ) by {
                    if k < i {
                        lemma_row_stable(
                            done[k].transitions@,
                            before,
                            sets@,
                            nfa.states@,
                            before[k]@,
                        );
                    }
                }
            }
            i = i + 1;
        }
        let dfa = Dfa { states };
        proof {
            assert forall|q: int, j: int|
                0 <= q < dfa.states@.len() && 0 <= j < dfa.states@[q].transitions@.len() implies {
                let t = #[trigger] dfa.states@[q].transitions@[j];
                t.low <= t.high && t.target < dfa.states@.len()
            } by {}
            assert forall|q: int| 0 <= q < dfa.states@.len() implies disjoint(
                (#[trigger] dfa.states@[q]).transitions@,
            ) by {}
            assert forall|s: Seq<char>| nfa.first_accepted(s, #[trigger] dfa.outcome(0, s)) by {
                lemma_represented_language(dfa, sets@, *nfa, s);
            }
            assert forall|bound: nat| nfa::rules_below(nfa.states@, bound) implies marks_valid(
                dfa,
                bound,
            ) by {
                assert forall|q: int| 0 <= q < dfa.states@.len() implies ((
                #[trigger] dfa.states@[q]).finalize matches Some(rule) ==> rule < bound) by {
                    match dfa.states@[q].finalize {
                        Some(rule) => {
                            assert(accepting(nfa.states@, sets@[q]@, rule));
                        },
                        None => {},
                    }
                }
            }
        }
        dfa
    }

    /// Build the deterministic automaton of a list of patterns.
    ///
    /// On every string it yields the first pattern of the list that describes
    /// the string, and none where no pattern does.
    pub fn for_patterns(patterns: &Vec<Pattern>) -> (dfa: Dfa)
        ensures
            dfa.well_formed(),
            recognizes(dfa, patterns@),
            marks_valid(dfa, patterns@.len()),
    {
        let count = patterns.len();
        let nfa = Nfa::for_patterns(patterns);
        let dfa = Dfa::from_nfa(&nfa);
        proof {
            assert forall|s: Seq<char>| first_matching(
                patterns@,
                s,
                #[trigger] dfa.outcome(0, s),
            ) by {
                match dfa.outcome(0, s) {
                    Some(rule) => {
                        assert forall|other: int| 0 <= other < rule implies !patterns@[other].matches(
                            s,
                        ) by {
                            assert(!nfa.accepts(s, other as usize));
                        }
                    },
                    None => {
                        assert forall|other: int| 0 <= other < patterns@.len() implies !patterns@[other].matches(
                            s,
                        ) by {
                            assert(!nfa.accepts(s, other as usize));
                        }
                    },
                }
            }
        }
        dfa
    }
}

/// Every rule that a state of the automaton is marked with is one of the
/// first `count` rules.
pub open spec fn marks_valid(automaton: Dfa, count: nat) -> bool {
    forall|q: int|
        0 <= q < automaton.states@.len() ==> ((#[trigger] automaton.states@[q]).finalize matches Some(
            rule,
        ) ==> rule < count)
}

/// The automaton yields on every string the first of the patterns that
/// describes the string, and none where no pattern does.
pub open spec fn recognizes(dfa: Dfa, patterns: Seq<Pattern>) -> bool {
    forall|s: Seq<char>| first_matching(patterns, s, #[trigger] dfa.outcome(0, s))
}

/// `first` is the place of the first pattern that describes `s`, if there is
/// one.
pub open spec fn first_matching(patterns: Seq<Pattern>, s: Seq<char>, first: Option<usize>) -> bool {
    match first {
        Some(rule) => rule < patterns.len() && patterns[rule as int].matches(s) && forall|
            other: int,
        |
            0 <= other < rule ==> !(#[trigger] patterns[other]).matches(s),
        None => forall|other: int|
            0 <= other < patterns.len() ==> !(#[trigger] patterns[other]).matches(s),
    }
}

/// From the state that stands for a set, the automaton yields on a string
/// the least rule for which a run from the set accepts the string.
pub proof fn lemma_outcome(dfa: Dfa, sets: Seq<Vec<bool>>, nfa: Nfa, k: int, s: Seq<char>)
    requires
        nfa::well_formed(nfa.states@),
        represents(dfa, sets, nfa),
        0 <= k < sets.len(),
    ensures
        first_accepted_from(nfa.states@, sets[k]@, s, dfa.outcome(k, s)),
    decreases s.len(),
{
    let states = nfa.states@;
    let set = sets[k]@;
    if s.len() == 0 {
        assert forall|rule: usize|
            #![trigger accepted_from(states, set, s, rule)]
            #![trigger accepting(states, set, rule)]
            accepted_from(states, set, s, rule) == accepting(states, set, rule) by {
            lemma_accepts_empty(states, set, s, rule);
        }
    } else {
        let code = s[0] as u32;
        let rest = s.drop_first();
        let next = next_set(states, set, code);
        let row = dfa.states@[k].transitions@;
        assert forall|rule: usize|
            #![trigger accepted_from(states, set, s, rule)]
            #![trigger accepted_from(states, next, rest, rule)]
            accepted_from(states, set, s, rule) == accepted_from(states, next, rest, rule) by {
            if accepted_from(states, set, s, rule) {
                let (q, n) = choose|q: int, n: nat|
                    0 <= q < set.len() && set[q] && #[trigger] nfa::run(states, q, s, n, rule);
                lemma_step_forward(states, set, q, s, n, rule);
            }
            if accepted_from(states, next, rest, rule) {
                lemma_step_backward(states, set, s, rule);
            }
        }
        if admitted(row, code) {
            let a = choose|a: int| 0 <= a < row.len() && (#[trigger] row[a]).admits_code(code);
            let t = row[a].target as int;
            lemma_outcome(dfa, sets, nfa, t, rest);
        } else {
            assert forall|rule: usize| !#[trigger] accepted_from(states, next, rest, rule) by {}
        }
    }
}

/// The automaton yields on a string the least rule for which the
/// nondeterministic automaton that it represents accepts the string.
pub proof fn lemma_represented_language(dfa: Dfa, sets: Seq<Vec<bool>>, nfa: Nfa, s: Seq<char>)
    requires
        nfa::well_formed(nfa.states@),
        nfa.start < nfa.states@.len(),
        represents(dfa, sets, nfa),
    ensures
        nfa.first_accepted(s, dfa.outcome(0, s)),
{
    lemma_outcome(dfa, sets, nfa, 0, s);
    assert forall|rule: usize|
        #![trigger nfa.accepts(s, rule)]
        #![trigger accepted_from(nfa.states@, sets[0]@, s, rule)]
        nfa.accepts(s, rule) == accepted_from(nfa.states@, sets[0]@, s, rule) by {
        lemma_start_set(nfa, s, rule);
    }
}

} // verus!
