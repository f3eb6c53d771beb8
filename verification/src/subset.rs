//! Sets of states of a nondeterministic automaton, as the subset
//! construction needs them.
//!
//! A set is a vector of flags, one per state. The closure of a set holds what
//! epsilon edges reach from it; the move of a set on a character holds what
//! the edges on that character reach from it.

use crate::nfa::Nfa;
use crate::nfa::State;
use crate::nfa::run;
use crate::nfa::well_formed;
use vstd::prelude::*;

verus! {

/// There is a path of `n` epsilon edges from state `p` to state `q`.
pub open spec fn eps_path(states: Seq<State>, p: int, q: int, n: nat) -> bool
    decreases n,
{
    0 <= p < states.len() && if n == 0 {
        p == q
    } else {
        exists|j: int|
            0 <= j < states[p].epsilons@.len() && eps_path(
                states,
                #[trigger] states[p].epsilons@[j] as int,
                q,
                (n - 1) as nat,
            )
    }
}

/// Epsilon edges lead from a member of `set` to state `q`.
pub open spec fn in_closure(states: Seq<State>, set: Seq<bool>, q: int) -> bool {
    exists|p: int, n: nat| 0 <= p < set.len() && set[p] && #[trigger] eps_path(states, p, q, n)
}

/// An edge on the character with the code `code` leads from a member of `set`
/// to state `q`.
pub open spec fn in_move(states: Seq<State>, set: Seq<bool>, code: u32, q: int) -> bool {
    exists|p: int, j: int|
        0 <= p < set.len() && p < states.len() && set[p] && 0 <= j < states[p].links@.len() && (
        #[trigger] states[p].links@[j]).admits_code(code) && states[p].links@[j].target == q
}

/// The set of the states that epsilon edges reach from `set`.
pub open spec fn closure_of(states: Seq<State>, set: Seq<bool>) -> Seq<bool> {
    Seq::new(states.len(), |q: int| in_closure(states, set, q))
}

/// The set of the states that edges on `code` reach from `set`.
pub open spec fn move_of(states: Seq<State>, set: Seq<bool>, code: u32) -> Seq<bool> {
    Seq::new(states.len(), |q: int| in_move(states, set, code, q))
}

/// The set that follows `set` on reading `code`: what the edges on `code`
/// reach, and what epsilon edges reach from there.
pub open spec fn next_set(states: Seq<State>, set: Seq<bool>, code: u32) -> Seq<bool> {
    closure_of(states, move_of(states, set, code))
}

/// The set of the one state `q`, among `n` states.
pub open spec fn singleton(n: nat, q: int) -> Seq<bool> {
    Seq::new(n, |p: int| p == q)
}

/// The set has no member.
pub open spec fn is_empty(set: Seq<bool>) -> bool {
    forall|q: int| 0 <= q < set.len() ==> !#[trigger] set[q]
}

/// The set has a flag for each state, and holds with each member what the
/// member's epsilon edges lead to.
pub open spec fn closed(states: Seq<State>, set: Seq<bool>) -> bool {
    &&& set.len() == states.len()
    &&& forall|p: int, j: int|
        0 <= p < states.len() && set[p] && 0 <= j < states[p].epsilons@.len() ==> set[
        #[trigger] states[p].epsilons@[j] as int]
}

/// A member of `set` accepts for `rule`.
pub open spec fn accepting(states: Seq<State>, set: Seq<bool>, rule: usize) -> bool {
    exists|q: int|
        0 <= q < set.len() && q < states.len() && #[trigger] set[q] && states[q].rule == Some(rule)
}

/// A run from a member of `set` reads exactly `s` and ends in a state that
/// accepts for `rule`.
pub open spec fn accepted_from(states: Seq<State>, set: Seq<bool>, s: Seq<char>, rule: usize) -> bool {
    exists|q: int, n: nat| 0 <= q < set.len() && set[q] && #[trigger] run(states, q, s, n, rule)
}

/// `first` is the least rule that a member of `set` accepts for, if there is
/// one.
pub open spec fn first_accepting(states: Seq<State>, set: Seq<bool>, first: Option<usize>) -> bool {
    match first {
        Some(rule) => accepting(states, set, rule) && forall|other: usize|
            other < rule ==> !#[trigger] accepting(states, set, other),
        None => forall|other: usize| !#[trigger] accepting(states, set, other),
    }
}

/// `first` is the least rule for which a run from a member of `set` accepts
/// `s`, if there is one.
pub open spec fn first_accepted_from(
    states: Seq<State>,
    set: Seq<bool>,
    s: Seq<char>,
    first: Option<usize>,
) -> bool {
    match first {
        Some(rule) => accepted_from(states, set, s, rule) && forall|other: usize|
            other < rule ==> !#[trigger] accepted_from(states, set, s, other),
        None => forall|other: usize| !#[trigger] accepted_from(states, set, s, other),
    }
}

/// A path of epsilon edges can be put in front of a run.
pub proof fn lemma_eps_then_run(
    states: Seq<State>,
    p: int,
    q: int,
    m: nat,
    s: Seq<char>,
    n: nat,
    rule: usize,
)
    requires
        eps_path(states, p, q, m),
        run(states, q, s, n, rule),
    ensures
        run(states, p, s, n + m, rule),
    decreases m,
{
    if m > 0 {
        let j = choose|j: int|
            0 <= j < states[p].epsilons@.len() && eps_path(
                states,
                #[trigger] states[p].epsilons@[j] as int,
                q,
                (m - 1) as nat,
            );
        lemma_eps_then_run(states, states[p].epsilons@[j] as int, q, (m - 1) as nat, s, n, rule);
    }
}

/// An epsilon edge can be put behind a path of epsilon edges.
pub proof fn lemma_eps_extend(states: Seq<State>, x: int, p: int, m: nat, j: int)
    requires
        well_formed(states),
        eps_path(states, x, p, m),
        0 <= p < states.len(),
        0 <= j < states[p].epsilons@.len(),
    ensures
        eps_path(states, x, states[p].epsilons@[j] as int, m + 1),
    decreases m,
{
    let target = states[p].epsilons@[j] as int;
    if m == 0 {
        assert(eps_path(states, target, target, 0));
    } else {
        let i = choose|i: int|
            0 <= i < states[x].epsilons@.len() && eps_path(
                states,
                #[trigger] states[x].epsilons@[i] as int,
                p,
                (m - 1) as nat,
            );
        lemma_eps_extend(states, states[x].epsilons@[i] as int, p, (m - 1) as nat, j);
    }
}

/// A closed set holds whatever epsilon edges reach from one of its members.
pub proof fn lemma_closed_holds_paths(states: Seq<State>, set: Seq<bool>, x: int, q: int, m: nat)
    requires
        closed(states, set),
        0 <= x < set.len(),
        set[x],
        eps_path(states, x, q, m),
    ensures
        0 <= q < set.len(),
        set[q],
    decreases m,
{
    if m > 0 {
        let j = choose|j: int|
            0 <= j < states[x].epsilons@.len() && eps_path(
                states,
                #[trigger] states[x].epsilons@[j] as int,
                q,
                (m - 1) as nat,
            );
        let y = states[x].epsilons@[j] as int;
        lemma_closed_holds_paths(states, set, y, q, (m - 1) as nat);
    }
}

/// The closure of a set is closed.
pub proof fn lemma_closure_is_closed(states: Seq<State>, set: Seq<bool>)
    requires
        well_formed(states),
    ensures
        closed(states, closure_of(states, set)),
{
    let closure = closure_of(states, set);
    assert forall|p: int, j: int|
        0 <= p < states.len() && closure[p] && 0 <= j < states[p].epsilons@.len() implies closure[
    #[trigger] states[p].epsilons@[j] as int] by {
        let (x, m) = choose|x: int, m: nat|
            0 <= x < set.len() && set[x] && #[trigger] eps_path(states, x, p, m);
        lemma_eps_extend(states, x, p, m, j);
    }
}

/// From a closed set, a run that reads nothing ends in a member of the set.
pub proof fn lemma_closed_empty_run(
    states: Seq<State>,
    set: Seq<bool>,
    q: int,
    s: Seq<char>,
    n: nat,
    rule: usize,
)
    requires
        closed(states, set),
        0 <= q < set.len(),
        set[q],
        s.len() == 0,
        run(states, q, s, n, rule),
    ensures
        accepting(states, set, rule),
    decreases n,
{
    if n > 0 {
        let j = choose|j: int|
            0 <= j < states[q].epsilons@.len() && run(
                states,
                #[trigger] states[q].epsilons@[j] as int,
                s,
                (n - 1) as nat,
                rule,
            );
        let y = states[q].epsilons@[j] as int;
        lemma_closed_empty_run(states, set, y, s, (n - 1) as nat, rule);
    }
}

/// A closed set accepts the empty string for the rules that its members
/// accept for, and for no others.
pub proof fn lemma_accepts_empty(states: Seq<State>, set: Seq<bool>, s: Seq<char>, rule: usize)
    requires
        closed(states, set),
        s.len() == 0,
    ensures
        accepted_from(states, set, s, rule) <==> accepting(states, set, rule),
{
    if accepted_from(states, set, s, rule) {
        let (q, n) = choose|q: int, n: nat|
            0 <= q < set.len() && set[q] && #[trigger] run(states, q, s, n, rule);
        lemma_closed_empty_run(states, set, q, s, n, rule);
    }
    if accepting(states, set, rule) {
        let q = choose|q: int|
            0 <= q < set.len() && q < states.len() && #[trigger] set[q] && states[q].rule == Some(
                rule,
            );
        assert(run(states, q, s, 0, rule));
    }
}

/// A run from a member of a closed set that reads a character goes on from
/// the set that follows on that character.
pub proof fn lemma_step_forward(
    states: Seq<State>,
    set: Seq<bool>,
    q: int,
    s: Seq<char>,
    n: nat,
    rule: usize,
)
    requires
        well_formed(states),
        closed(states, set),
        0 <= q < set.len(),
        set[q],
        s.len() > 0,
        run(states, q, s, n, rule),
    ensures
        accepted_from(states, next_set(states, set, s[0] as u32), s.drop_first(), rule),
    decreases n,
{
    let rest = (n - 1) as nat;
    if exists|j: int|
        0 <= j < states[q].epsilons@.len() && run(
            states,
            #[trigger] states[q].epsilons@[j] as int,
            s,
            rest,
            rule,
        ) {
        let j = choose|j: int|
            0 <= j < states[q].epsilons@.len() && run(
                states,
                #[trigger] states[q].epsilons@[j] as int,
                s,
                rest,
                rule,
            );
        lemma_step_forward(states, set, states[q].epsilons@[j] as int, s, rest, rule);
    } else {
        let j = choose|j: int|
            0 <= j < states[q].links@.len() && (#[trigger] states[q].links@[j]).admits(s[0])
                && run(states, states[q].links@[j].target as int, s.drop_first(), rest, rule);
        let t = states[q].links@[j].target as int;
        assert(eps_path(states, t, t, 0));
    }
}

/// A run from the set that follows on a character is the rest of a run that
/// reads the character first.
pub proof fn lemma_step_backward(states: Seq<State>, set: Seq<bool>, s: Seq<char>, rule: usize)
    requires
        set.len() == states.len(),
        s.len() > 0,
        accepted_from(states, next_set(states, set, s[0] as u32), s.drop_first(), rule),
    ensures
        accepted_from(states, set, s, rule),
{
    let code = s[0] as u32;
    let moved = move_of(states, set, code);
    let next = next_set(states, set, code);
    let (q, n) = choose|q: int, n: nat|
        0 <= q < next.len() && next[q] && #[trigger] run(states, q, s.drop_first(), n, rule);
    let (t, m) = choose|t: int, m: nat|
        0 <= t < moved.len() && moved[t] && #[trigger] eps_path(states, t, q, m);
    let (p, j) = choose|p: int, j: int|
        0 <= p < set.len() && p < states.len() && set[p] && 0 <= j < states[p].links@.len() && (
        #[trigger] states[p].links@[j]).admits_code(code) && states[p].links@[j].target == t;
    lemma_eps_then_run(states, t, q, m, s.drop_first(), n, rule);
    assert(run(states, p, s, n + m + 1, rule));
}

/// The closure of the start state accepts what the automaton accepts.
pub proof fn lemma_start_set(nfa: Nfa, s: Seq<char>, rule: usize)
    requires
        nfa.start < nfa.states@.len(),
    ensures
        nfa.accepts(s, rule) <==> accepted_from(
            nfa.states@,
            closure_of(nfa.states@, singleton(nfa.states@.len(), nfa.start as int)),
            s,
            rule,
        ),
{
    let states = nfa.states@;
    let start = nfa.start as int;
    let seed = singleton(states.len(), start);
    let set = closure_of(states, seed);
    if nfa.accepts(s, rule) {
        assert(eps_path(states, start, start, 0));
    }
    if accepted_from(states, set, s, rule) {
        let (q, n) = choose|q: int, n: nat|
            0 <= q < set.len() && set[q] && #[trigger] run(states, q, s, n, rule);
        let (p, m) = choose|p: int, m: nat|
            0 <= p < seed.len() && seed[p] && #[trigger] eps_path(states, p, q, m);
        lemma_eps_then_run(states, p, q, m, s, n, rule);
    }
}

/// The number of states that are not in the set.
pub open spec fn count_absent(set: Seq<bool>) -> nat
    decreases set.len(),
{
    if set.len() == 0 {
        0
    } else {
        count_absent(set.drop_last()) + if set.last() {
            0nat
        } else {
            1nat
        }
    }
}

/// A state that joins the set is absent no more.
proof fn lemma_count_after_insert(set: Seq<bool>, q: int)
    requires
        0 <= q < set.len(),
        !set[q],
    ensures
        count_absent(set.update(q, true)) + 1 == count_absent(set),
    decreases set.len(),
{
    let after = set.update(q, true);
    if q == set.len() - 1 {
        assert(after.drop_last() =~= set.drop_last());
    } else {
        lemma_count_after_insert(set.drop_last(), q);
        assert(after.drop_last() =~= set.drop_last().update(q, true));
    }
}

/// As `in_move`, of the edges that stand before edge `edges` of state
/// `members`: those of earlier states, and the earlier ones of that state.
pub open spec fn in_move_before(
    states: Seq<State>,
    set: Seq<bool>,
    code: u32,
    q: int,
    members: int,
    edges: int,
) -> bool {
    exists|p: int, j: int|
        0 <= p < set.len() && p < states.len() && set[p] && 0 <= j < states[p].links@.len() && (
        #[trigger] states[p].links@[j]).admits_code(code) && states[p].links@[j].target == q && (p
            < members || (p == members && j < edges))
}

/// As `accepting`, of the members before state `bound`.
pub open spec fn accepting_before(states: Seq<State>, set: Seq<bool>, rule: usize, bound: int) -> bool {
    exists|q: int|
        0 <= q < bound && q < set.len() && q < states.len() && #[trigger] set[q] && states[q].rule
            == Some(rule)
}

/// The set without members, among `n` states.
pub fn empty_set(n: usize) -> (set: Vec<bool>)
    ensures
        set@.len() == n,
        is_empty(set@),
{
    let mut set: Vec<bool> = Vec::new();
    let mut i: usize = 0;
    while i < n
        invariant
            i <= n,
            set@.len() == i,
            is_empty(set@),
        decreases n - i,
    {
        set.push(false);
        i = i + 1;
    }
    set
}

/// The set of the one state `q`, among `n` states.
pub fn singleton_set(n: usize, q: usize) -> (set: Vec<bool>)
    requires
        q < n,
    ensures
        set@ == singleton(n as nat, q as int),
{
    let mut set = empty_set(n);
    set.set(q, true);
    set
}

/// Whether the set has a member.
pub fn has_member(set: &Vec<bool>) -> (found: bool)
    ensures
        found == !is_empty(set@),
{
    let mut i: usize = 0;
    while i < set.len()
        invariant
            i <= set.len(),
            forall|q: int| 0 <= q < i ==> !#[trigger] set@[q],
        decreases set.len() - i,
    {
        if set[i] {
            return true;
        }
        i = i + 1;
    }
    false
}

/// Whether two sets over the same states have the same members.
pub fn same_set(a: &Vec<bool>, b: &Vec<bool>) -> (same: bool)
    requires
        a@.len() == b@.len(),
    ensures
        same == (a@ == b@),
{
    let mut i: usize = 0;
    while i < a.len()
        invariant
            i <= a.len(),
            a@.len() == b@.len(),
            forall|q: int| 0 <= q < i ==> a@[q] == b@[q],
        decreases a.len() - i,
    {
        if a[i] != b[i] {
            return false;
        }
        i = i + 1;
    }
    proof {
        assert(a@ =~= b@);
    }
    true
}

/// Add to `seed` whatever epsilon edges reach from it.
pub fn closure(nfa: &Nfa, seed: Vec<bool>) -> (set: Vec<bool>)
    requires
        well_formed(nfa.states@),
        seed@.len() == nfa.states@.len(),
    ensures
        set@ == closure_of(nfa.states@, seed@),
{
    let ghost origin = seed@;
    let ghost states = nfa.states@;
    let n = nfa.states.len();
    let mut set = seed;
    let mut changed = true;
    proof {
        assert forall|q: int| 0 <= q < n && origin[q] implies in_closure(states, origin, q) by {
            assert(eps_path(states, q, q, 0));
        }
    }
    while changed
        invariant
            states == nfa.states@,
            n == states.len(),
            well_formed(states),
            set@.len() == n,
            origin.len() == n,
            forall|q: int| 0 <= q < n && origin[q] ==> set@[q],
            forall|q: int| 0 <= q < n && set@[q] ==> in_closure(states, origin, q),
            !changed ==> closed(states, set@),
        decreases
                count_absent(set@) + if changed {
                    1nat
                } else {
                    0nat
                },
    {
        let ghost at_start = set@;
        changed = false;
        let mut p: usize = 0;
        while p < n
            invariant
                p <= n,
                states == nfa.states@,
                n == states.len(),
                well_formed(states),
                set@.len() == n,
                origin.len() == n,
                forall|q: int| 0 <= q < n && origin[q] ==> set@[q],
                forall|q: int| 0 <= q < n && set@[q] ==> in_closure(states, origin, q),
                !changed ==> set@ == at_start,
                changed ==> count_absent(set@) < count_absent(at_start),
                !changed ==> forall|x: int, j: int|
                    0 <= x < p && set@[x] && 0 <= j < states[x].epsilons@.len() ==> set@[
                    #[trigger] states[x].epsilons@[j] as int],
            decreases n - p,
        {
            if set[p] {
                let state = &nfa.states[p];
                let mut j: usize = 0;
                while j < state.epsilons.len()
                    invariant
                        j <= state.epsilons@.len(),
                        p < n,
                        *state == states[p as int],
                        set@[p as int],
                        states == nfa.states@,
                        n == states.len(),
                        well_formed(states),
                        set@.len() == n,
                        origin.len() == n,
                        forall|q: int| 0 <= q < n && origin[q] ==> set@[q],
                        forall|q: int| 0 <= q < n && set@[q] ==> in_closure(states, origin, q),
                        !changed ==> set@ == at_start,
                        changed ==> count_absent(set@) < count_absent(at_start),
                        !changed ==> forall|x: int, j: int|
                            0 <= x < p && set@[x] && 0 <= j < states[x].epsilons@.len() ==> set@[
                            #[trigger] states[x].epsilons@[j] as int],
                        !changed ==> forall|i: int|
                            0 <= i < j ==> set@[#[trigger] states[p as int].epsilons@[i] as int],
                    decreases state.epsilons@.len() - j,
                {
                    let target = state.epsilons[j];
                    if !set[target] {
                        proof {
                            lemma_count_after_insert(set@, target as int);
                            let (x, m) = choose|x: int, m: nat|
                                0 <= x < origin.len() && origin[x] && #[trigger] eps_path(
                                    states,
                                    x,
                                    p as int,
                                    m,
                                );
                            lemma_eps_extend(states, x, p as int, m, j as int);
                        }
                        set.set(target, true);
                        changed = true;
                    }
                    j = j + 1;
                }
            }
            p = p + 1;
        }
    }
    proof {
        assert forall|q: int| 0 <= q < n implies set@[q] == in_closure(states, origin, q) by {
            if in_closure(states, origin, q) {
                let (x, m) = choose|x: int, m: nat|
                    0 <= x < origin.len() && origin[x] && #[trigger] eps_path(states, x, q, m);
                lemma_closed_holds_paths(states, set@, x, q, m);
            }
        }
    }
    set
}

/// The set of the states that edges on `code` reach from `set`.
pub fn moved(nfa: &Nfa, set: &Vec<bool>, code: u32) -> (result: Vec<bool>)
    requires
        well_formed(nfa.states@),
        set@.len() == nfa.states@.len(),
    ensures
        result@ == move_of(nfa.states@, set@, code),
{
    let ghost states = nfa.states@;
    let n = nfa.states.len();
    let mut result = empty_set(n);
    let mut p: usize = 0;
    while p < n
        invariant
            p <= n,
            states == nfa.states@,
            n == states.len(),
            well_formed(states),
            set@.len() == n,
            result@.len() == n,
            forall|q: int|
                0 <= q < n ==> #[trigger] result@[q] == in_move_before(
                    states,
                    set@,
                    code,
                    q,
                    p as int,
                    0,
                ),
        decreases n - p,
    {
        if set[p] {
            let state = &nfa.states[p];
            let mut j: usize = 0;
            while j < state.links.len()
                invariant
                    j <= state.links@.len(),
                    p < n,
                    *state == states[p as int],
                    set@[p as int],
                    states == nfa.states@,
                    n == states.len(),
                    well_formed(states),
                    set@.len() == n,
                    result@.len() == n,
                    forall|q: int|
                        0 <= q < n ==> #[trigger] result@[q] == in_move_before(
                            states,
                            set@,
                            code,
                            q,
                            p as int,
                            j as int,
                        ),
                decreases state.links@.len() - j,
            {
                let link = state.links[j];
                if link.low <= code && code <= link.high {
                    result.set(link.target, true);
                }
                j = j + 1;
            }
        }
        p = p + 1;
    }
    result
}

/// The least rule that a member of `set` accepts for, if there is one.
pub fn first_rule(nfa: &Nfa, set: &Vec<bool>) -> (first: Option<usize>)
    requires
        set@.len() == nfa.states@.len(),
    ensures
        first_accepting(nfa.states@, set@, first),
{
    let ghost states = nfa.states@;
    let n = nfa.states.len();
    let mut first: Option<usize> = None;
    let mut p: usize = 0;
    while p < n
        invariant
            p <= n,
            states == nfa.states@,
            n == states.len(),
            set@.len() == n,
            match first {
                Some(rule) => accepting_before(states, set@, rule, p as int) && forall|
                    other: usize,
                |
                    other < rule ==> !#[trigger] accepting_before(states, set@, other, p as int),
                None => forall|other: usize|
                    !#[trigger] accepting_before(states, set@, other, p as int),
            },
        decreases n - p,
    {
        if set[p] {
            match nfa.states[p].rule {
                Some(rule) => {
                    let better = match first {
                        Some(best) => rule < best,
                        None => true,
                    };
                    if better {
                        first = Some(rule);
                    }
                },
                None => {},
            }
        }
        proof {
            assert forall|other: usize| #[trigger]
                accepting_before(states, set@, other, p + 1) implies accepting_before(
                states,
                set@,
                other,
                p as int,
            ) || (set@[p as int] && states[p as int].rule == Some(other)) by {}
        }
        p = p + 1;
    }
    proof {
        assert forall|other: usize| #[trigger]
            accepting(states, set@, other) implies accepting_before(states, set@, other, n as int) by {}
    }
    first
}

} // verus!
