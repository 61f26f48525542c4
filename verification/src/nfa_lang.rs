//! What a table of automaton states accepts: the sets of states that are
//! reached by reading an input, with everything that empty transitions add.

use vstd::prelude::*;
use crate::nfa::StateModel;
use crate::state_set::{lemma_increasing_unique, strictly_increasing};

verus! {

/// State `a` leads on to state `b` without reading.
pub open spec fn eps_edge(t: Seq<StateModel>, a: u32, b: u32) -> bool {
    (a as int) < t.len() && match t[a as int] {
        StateModel::Empty { next } => next == b,
        StateModel::Union { alternates, .. } => alternates.contains(b),
        _ => false,
    }
}

/// `n` empty transitions lead from `a` to `b`.
pub open spec fn eps_path(t: Seq<StateModel>, a: u32, b: u32, n: nat) -> bool
    decreases n,
{
    if n == 0 {
        a == b
    } else {
        exists|c: u32| eps_edge(t, a, c) && eps_path(t, c, b, (n - 1) as nat)
    }
}

/// Empty transitions lead from `a` to `b`.
pub open spec fn eps_reach(t: Seq<StateModel>, a: u32, b: u32) -> bool {
    exists|n: nat| eps_path(t, a, b, n)
}

/// The states that empty transitions lead to from a state of `from`.
pub open spec fn closure(t: Seq<StateModel>, from: Set<u32>) -> Set<u32> {
    Set::new(|b: u32| exists|a: u32| from.contains(a) && eps_reach(t, a, b))
}

/// Whether state `a` reads `byte`, and leads on to `b` then.
pub open spec fn reads(t: Seq<StateModel>, a: u32, byte: u8, b: u32) -> bool {
    (a as int) < t.len() && match t[a as int] {
        StateModel::Range { start, end, next } => start <= byte <= end && next == b,
        _ => false,
    }
}

/// The states that reading `byte` leads to from a state of `from`.
pub open spec fn step_set(t: Seq<StateModel>, from: Set<u32>, byte: u8) -> Set<u32> {
    Set::new(|b: u32| exists|a: u32| from.contains(a) && reads(t, a, byte, b))
}

/// The states that the automaton may be in after it has read `input` from
/// state 0.
pub open spec fn after(t: Seq<StateModel>, input: Seq<u8>) -> Set<u32>
    decreases input.len(),
{
    if input.len() == 0 {
        closure(t, set![0u32])
    } else {
        closure(t, step_set(t, after(t, input.drop_last()), input.last()))
    }
}

/// Whether `states` holds a match state.
pub open spec fn has_match(t: Seq<StateModel>, states: Set<u32>) -> bool {
    exists|m: u32| states.contains(m) && (m as int) < t.len() && t[m as int] is Match
}

/// Whether the automaton accepts `input`: reading it from state 0 may end
/// in a match state.
pub open spec fn nfa_accepts(t: Seq<StateModel>, input: Seq<u8>) -> bool {
    has_match(t, after(t, input))
}

/// Whether `m` is a state of `t` that reads a byte.
pub open spec fn is_range(t: Seq<StateModel>, x: u32) -> bool {
    (x as int) < t.len() && t[x as int] is Range
}

/// `(is_match, ids)` is the canonical form of `states`: its byte-reading
/// states in increasing order, and whether it holds a match state.
pub open spec fn is_key(t: Seq<StateModel>, states: Set<u32>, is_match: bool, ids: Seq<u32>) -> bool {
    &&& strictly_increasing(ids)
    &&& forall|x: u32| ids.contains(x) <==> states.contains(x) && is_range(t, x)
    &&& is_match == has_match(t, states)
}

/// No empty transition leads out of `states`.
pub open spec fn closed(t: Seq<StateModel>, states: Set<u32>) -> bool {
    forall|a: u32, b: u32| states.contains(a) && eps_edge(t, a, b) ==> states.contains(b)
}

/// A path with one more transition at its end.
pub proof fn lemma_path_extend(t: Seq<StateModel>, a: u32, v: u32, c: u32, n: nat)
    requires
        eps_path(t, a, v, n),
        eps_edge(t, v, c),
    ensures
        eps_path(t, a, c, n + 1),
    decreases n,
{
    if n == 0 {
        assert(eps_path(t, c, c, 0));
        assert(eps_edge(t, a, c) && eps_path(t, c, c, 0));
    } else {
        let m = choose|m: u32| eps_edge(t, a, m) && eps_path(t, m, v, (n - 1) as nat);
        lemma_path_extend(t, m, v, c, (n - 1) as nat);
        assert(eps_edge(t, a, m) && eps_path(t, m, c, n as nat));
    }
}

/// What is reached from a state that is reached is reached.
pub proof fn lemma_reach_edge(t: Seq<StateModel>, a: u32, v: u32, c: u32)
    requires
        eps_reach(t, a, v),
        eps_edge(t, v, c),
    ensures
        eps_reach(t, a, c),
{
    let n = choose|n: nat| eps_path(t, a, v, n);
    lemma_path_extend(t, a, v, c, n);
}

/// Every state reaches itself.
pub proof fn lemma_reach_self(t: Seq<StateModel>, a: u32)
    ensures
        eps_reach(t, a, a),
{
    assert(eps_path(t, a, a, 0));
}

/// A closed set holds whatever its states reach.
pub proof fn lemma_closed_path(t: Seq<StateModel>, states: Set<u32>, a: u32, b: u32, n: nat)
    requires
        closed(t, states),
        states.contains(a),
        eps_path(t, a, b, n),
    ensures
        states.contains(b),
    decreases n,
{
    if n > 0 {
        let c = choose|c: u32| eps_edge(t, a, c) && eps_path(t, c, b, (n - 1) as nat);
        lemma_closed_path(t, states, c, b, (n - 1) as nat);
    }
}

/// The closure of a set is closed and holds the set.
pub proof fn lemma_closure_closed(t: Seq<StateModel>, from: Set<u32>)
    ensures
        closed(t, closure(t, from)),
        from.subset_of(closure(t, from)),
{
    let cl = closure(t, from);
    assert forall|a: u32, b: u32| cl.contains(a) && eps_edge(t, a, b) implies cl.contains(b) by {
        let origin = choose|origin: u32| from.contains(origin) && eps_reach(t, origin, a);
        lemma_reach_edge(t, origin, a, b);
    }
    assert forall|a: u32| from.contains(a) implies cl.contains(a) by {
        lemma_reach_self(t, a);
    }
}

/// A closed set that holds `from` holds its closure.
pub proof fn lemma_closure_least(t: Seq<StateModel>, from: Set<u32>, states: Set<u32>)
    requires
        closed(t, states),
        from.subset_of(states),
    ensures
        closure(t, from).subset_of(states),
{
    assert forall|b: u32| closure(t, from).contains(b) implies states.contains(b) by {
        let a = choose|a: u32| from.contains(a) && eps_reach(t, a, b);
        let n = choose|n: nat| eps_path(t, a, b, n);
        lemma_closed_path(t, states, a, b, n);
    }
}

/// The closure of a set with one more state is the closure of the set with
/// what that state reaches.
pub proof fn lemma_closure_insert(t: Seq<StateModel>, from: Set<u32>, x: u32)
    ensures
        closure(t, from.insert(x)) =~= closure(t, from).union(closure(t, set![x])),
{
    let lhs = closure(t, from.insert(x));
    let rhs = closure(t, from).union(closure(t, set![x]));
    assert forall|b: u32| lhs.contains(b) <==> rhs.contains(b) by {
        if lhs.contains(b) {
            let a = choose|a: u32| from.insert(x).contains(a) && eps_reach(t, a, b);
            if a == x {
                assert(set![x].contains(x));
                assert(closure(t, set![x]).contains(b));
            } else {
                assert(from.contains(a));
                assert(closure(t, from).contains(b));
            }
        }
        if closure(t, from).contains(b) {
            let a = choose|a: u32| from.contains(a) && eps_reach(t, a, b);
            assert(from.insert(x).contains(a));
        }
        if closure(t, set![x]).contains(b) {
            let a = choose|a: u32| set![x].contains(a) && eps_reach(t, a, b);
            assert(from.insert(x).contains(a));
        }
    }
}

/// Only the byte-reading states of a set matter for what a byte leads to.
pub proof fn lemma_step_by_key(t: Seq<StateModel>, states: Set<u32>, ids: Seq<u32>, byte: u8)
    requires
        forall|x: u32| ids.contains(x) <==> states.contains(x) && is_range(t, x),
    ensures
        step_set(t, states, byte) =~= step_set(t, ids.to_set(), byte),
{
    let lhs = step_set(t, states, byte);
    let rhs = step_set(t, ids.to_set(), byte);
    assert forall|b: u32| lhs.contains(b) <==> rhs.contains(b) by {
        if lhs.contains(b) {
            let a = choose|a: u32| states.contains(a) && reads(t, a, byte, b);
            assert(is_range(t, a));
            assert(ids.contains(a));
            assert(ids.to_set().contains(a));
        }
        if rhs.contains(b) {
            let a = choose|a: u32| ids.to_set().contains(a) && reads(t, a, byte, b);
            assert(ids.contains(a));
            assert(states.contains(a));
        }
    }
}

/// A set of states has one canonical form.
pub proof fn lemma_key_unique(
    t: Seq<StateModel>,
    states: Set<u32>,
    m1: bool,
    ids1: Seq<u32>,
    m2: bool,
    ids2: Seq<u32>,
)
    requires
        is_key(t, states, m1, ids1),
        is_key(t, states, m2, ids2),
    ensures
        m1 == m2,
        ids1 == ids2,
{
    lemma_increasing_unique(ids1, ids2);
}

} // verus!
