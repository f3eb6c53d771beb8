//! The division of the alphabet by the edges of an automaton.
//!
//! The bounds of the edges cut the character codes into segments. Within a
//! segment every edge admits all the codes or none of them, so that one code
//! of a segment stands for all the others.

use crate::nfa::Link;
use crate::nfa::Nfa;
use crate::nfa::State;
use crate::subset::is_empty;
use crate::subset::next_set;
use vstd::prelude::*;

verus! {

/// One more than the greatest code that an edge can admit.
pub const CODE_LIMIT: u64 = 0x1_0000_0000;

/// The points stand in increasing order, none twice.
pub open spec fn increasing(points: Seq<u64>) -> bool {
    forall|a: int, b: int| 0 <= a < b < points.len() ==> points[a] < points[b]
}

/// No point lies beyond the limit of the codes.
pub open spec fn bounded(points: Seq<u64>) -> bool {
    forall|a: int| 0 <= a < points.len() ==> #[trigger] points[a] <= CODE_LIMIT
}

/// The edge admits at least one code.
pub open spec fn live(link: Link) -> bool {
    link.low <= link.high
}

/// The points hold the bounds of the edge, if it admits any code: its lowest
/// code, and the code after its highest.
pub open spec fn marked(points: Seq<u64>, link: Link) -> bool {
    live(link) ==> points.contains(link.low as u64) && points.contains((link.high + 1) as u64)
}

/// The points hold the bounds of every edge of the states.
pub open spec fn marks(points: Seq<u64>, states: Seq<State>) -> bool {
    forall|q: int, j: int|
        0 <= q < states.len() && 0 <= j < states[q].links@.len() ==> marked(
            points,
            #[trigger] states[q].links@[j],
        )
}

/// As `marks`, of the edges that stand before edge `edges` of state `done`.
pub open spec fn marks_before(points: Seq<u64>, states: Seq<State>, done: int, edges: int) -> bool {
    forall|q: int, j: int|
        0 <= q < states.len() && 0 <= j < states[q].links@.len() && (q < done || (q == done && j
            < edges)) ==> marked(points, #[trigger] states[q].links@[j])
}

/// `point` is a bound of an edge of the states: the lowest code of an edge
/// that admits a code, or the code after its highest.
pub open spec fn is_bound(states: Seq<State>, point: u64) -> bool {
    exists|q: int, j: int|
        0 <= q < states.len() && 0 <= j < states[q].links@.len() && live(
            #[trigger] states[q].links@[j],
        ) && (point == states[q].links@[j].low || point == states[q].links@[j].high + 1)
}

/// `code` lies in the segment that begins at point `k`.
pub open spec fn in_segment(points: Seq<u64>, k: int, code: u32) -> bool {
    0 <= k && k + 1 < points.len() && points[k] <= code < points[k + 1]
}

/// `code` lies in no segment: before the first point, or not before the last.
pub open spec fn outside(points: Seq<u64>, code: u32) -> bool {
    points.len() == 0 || code < points[0] || points[points.len() - 1] <= code
}

/// Within a segment the set that follows on the first code follows on every
/// other.
pub proof fn lemma_segment_next(
    points: Seq<u64>,
    states: Seq<State>,
    set: Seq<bool>,
    k: int,
    code: u32,
)
    requires
        increasing(points),
        marks(points, states),
        in_segment(points, k, code),
    ensures
        next_set(states, set, code) == next_set(states, set, points[k] as u32),
{
}

/// On a code that lies in no segment nothing follows.
pub proof fn lemma_outside_next(points: Seq<u64>, states: Seq<State>, set: Seq<bool>, code: u32)
    requires
        increasing(points),
        marks(points, states),
        outside(points, code),
    ensures
        is_empty(next_set(states, set, code)),
{
}

/// Put `x` at its place among the points, unless it is there.
pub fn insert_point(points: &mut Vec<u64>, x: u64)
    requires
        increasing(old(points)@),
    ensures
        increasing(final(points)@),
        forall|y: u64| final(points)@.contains(y) <==> (old(points)@.contains(y) || y == x),
{
    let ghost before = points@;
    let mut i: usize = 0;
    while i < points.len() && points[i] < x
        invariant
            i <= points.len(),
            points@ == before,
            forall|k: int| 0 <= k < i ==> points@[k] < x,
        decreases points.len() - i,
    {
        i = i + 1;
    }
    if i < points.len() && points[i] == x {
        return ;
    }
    points.insert(i, x);
    proof {
        let after = points@;
        before.insert_ensures(i as int, x);
        assert forall|y: u64| after.contains(y) <==> (before.contains(y) || y == x) by {
            if before.contains(y) {
                let k = choose|k: int| 0 <= k < before.len() && before[k] == y;
                if k < i {
                    assert(after[k] == y);
                }
            }
        }
    }
}

/// The points that the edges of the automaton cut the codes at, in
/// increasing order: the bounds of the edges, each once, and nothing else.
pub fn divisions(nfa: &Nfa) -> (points: Vec<u64>)
    ensures
        increasing(points@),
        bounded(points@),
        marks(points@, nfa.states@),
        forall|y: u64| points@.contains(y) ==> is_bound(nfa.states@, y),
{
    let ghost states = nfa.states@;
    let mut points: Vec<u64> = Vec::new();
    let mut q: usize = 0;
    while q < nfa.states.len()
        invariant
            q <= nfa.states.len(),
            states == nfa.states@,
            increasing(points@),
            bounded(points@),
            marks_before(points@, states, q as int, 0),
            forall|y: u64| points@.contains(y) ==> is_bound(states, y),
        decreases nfa.states.len() - q,
    {
        let state = &nfa.states[q];
        let mut j: usize = 0;
        while j < state.links.len()
            invariant
                j <= state.links@.len(),
                q < nfa.states.len(),
                *state == states[q as int],
                states == nfa.states@,
                increasing(points@),
                bounded(points@),
                marks_before(points@, states, q as int, j as int),
                forall|y: u64| points@.contains(y) ==> is_bound(states, y),
            decreases state.links@.len() - j,
        {
            let link = state.links[j];
            let ghost before = points@;
            if link.low <= link.high {
                let low: u64 = link.low as u64;
                let next: u64 = link.high as u64 + 1;
                insert_point(&mut points, low);
                insert_point(&mut points, next);
                proof {
                    assert forall|a: int| 0 <= a < points@.len() implies #[trigger] points@[a]
                        <= CODE_LIMIT by {
                        let point = points@[a];
                        assert(points@.contains(point));
                        assert(before.contains(point) || point == low || point == next);
                    }
                }
            }
            j = j + 1;
        }
        q = q + 1;
    }
    points
}

} // verus!
