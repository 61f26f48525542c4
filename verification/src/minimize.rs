//! Minimisation of a dense DFA by partition refinement.
//!
//! The states are split into blocks of states that no input read so far
//! tells apart. A work list holds the blocks whose predecessors may still
//! split other blocks. When it runs empty, the blocks are the states of the
//! smallest automaton that accepts the same inputs.

use vstd::prelude::*;
use crate::determinize::same_language;
use crate::nfa::StateModel;
use crate::nfa_lang::nfa_accepts;
use crate::dfa::{DFA, DFAState, DFA_DEAD, ALPHABET_SIZE};
use crate::state_set::StateSet;
use crate::sparse_set::lemma_distinct_bounded;

verus! {

/// Whether `set` holds exactly one of the states `x` and `y`.
pub open spec fn separates(set: Seq<u32>, x: int, y: int) -> bool {
    set.contains(x as u32) != set.contains(y as u32)
}

/// `cls` assigns every state below `n` the index of the one block of `parts`
/// that holds it; the blocks are canonical and none is empty.
pub open spec fn partition_ok(parts: Seq<StateSet>, cls: Seq<int>, n: int) -> bool {
    &&& cls.len() == n
    &&& forall|q: int|
        0 <= q < n ==> 0 <= #[trigger] cls[q] < parts.len() && parts[cls[q]]@.contains(q as u32)
    &&& forall|i: int|
        0 <= i < parts.len() ==> (#[trigger] parts[i]).is_canonical() && parts[i]@.len() > 0
    &&& forall|i: int, k: int|
        0 <= i < parts.len() && 0 <= k < parts[i]@.len() ==> (#[trigger] parts[i]@[k] as int) < n
            && cls[parts[i]@[k] as int] == i
}

/// States of one block agree on whether they accept.
pub open spec fn same_flags(dfa: DFA, cls: Seq<int>) -> bool {
    forall|p: int, q: int|
        #![trigger cls[p], cls[q]]
        0 <= p < dfa.len() && 0 <= q < dfa.len() && cls[p] == cls[q] ==> dfa.states@[p].is_match
            == dfa.states@[q].is_match
}

/// Every byte leads states of one block into one block.
pub open spec fn congruence(dfa: DFA, cls: Seq<int>) -> bool {
    forall|p: int, q: int, b: u8|
        #![trigger dfa.step(p, b), dfa.step(q, b)]
        0 <= p < dfa.len() && 0 <= q < dfa.len() && cls[p] == cls[q] ==> cls[dfa.step(p, b)]
            == cls[dfa.step(q, b)]
}

/// States of different blocks are told apart by some input.
pub open spec fn justified(dfa: DFA, cls: Seq<int>) -> bool {
    forall|p: int, q: int|
        #![trigger cls[p], cls[q]]
        0 <= p < dfa.len() && 0 <= q < dfa.len() && cls[p] != cls[q] ==> dfa.distinguishable(p, q)
}

/// `set` is made of whole blocks.
pub open spec fn saturated(set: Seq<u32>, cls: Seq<int>, n: int) -> bool {
    forall|p: int, q: int|
        #![trigger cls[p], cls[q]]
        0 <= p < n && 0 <= q < n && cls[p] == cls[q] ==> !separates(set, p, q)
}

/// The states `p` and `q` share a block, but byte `b` leads them into
/// different blocks.
pub open spec fn violates(dfa: DFA, cls: Seq<int>, p: int, q: int, b: u8) -> bool {
    cls[p] == cls[q] && cls[dfa.step(p, b)] != cls[dfa.step(q, b)]
}

/// The set being processed or a waiting set tells the successors of `p` and
/// `q` on byte `b` apart.
pub open spec fn covered(
    dfa: DFA,
    waiting: Seq<StateSet>,
    cur: Seq<u32>,
    p: int,
    q: int,
    b: u8,
) -> bool {
    separates(cur, dfa.step(p, b), dfa.step(q, b)) || exists|w: int|
        0 <= w < waiting.len() && separates((#[trigger] waiting[w])@, dfa.step(p, b), dfa.step(q, b))
}

/// Whatever still has to be split is announced by the work list.
pub open spec fn pending(dfa: DFA, cls: Seq<int>, waiting: Seq<StateSet>, cur: Seq<u32>) -> bool {
    forall|p: int, q: int, b: u8|
        0 <= p < dfa.len() && 0 <= q < dfa.len() && #[trigger] violates(dfa, cls, p, q, b)
            ==> covered(dfa, waiting, cur, p, q, b)
}

/// The states `p` and `q` share a block, but `cur` tells their successors on
/// byte `b` apart.
pub open spec fn cur_splits(dfa: DFA, cls: Seq<int>, cur: Seq<u32>, p: int, q: int, b: u8) -> bool {
    cls[p] == cls[q] && separates(cur, dfa.step(p, b), dfa.step(q, b))
}

/// No block is split by `cur` on a byte below `k`.
pub open spec fn stable_upto(dfa: DFA, cls: Seq<int>, cur: Seq<u32>, k: int) -> bool {
    forall|p: int, q: int, b: u8|
        0 <= p < dfa.len() && 0 <= q < dfa.len() && (b as int) < k ==> !#[trigger] cur_splits(
            dfa,
            cls,
            cur,
            p,
            q,
            b,
        )
}

/// `incoming` holds exactly the states that byte `b` leads into `cur`.
pub open spec fn incoming_of(dfa: DFA, cur: Seq<u32>, b: u8, incoming: Seq<u32>) -> bool {
    forall|x: u32|
        incoming.contains(x) <==> (x as int) < dfa.len() && cur.contains(
            dfa.step(x as int, b) as u32,
        )
}

/// The blocks below `done` and from `fresh` on lie inside `incoming` or
/// outside it.
pub open spec fn uniform(cls: Seq<int>, incoming: Seq<u32>, done: int, fresh: int, n: int) -> bool {
    forall|p: int, q: int|
        #![trigger cls[p], cls[q]]
        0 <= p < n && 0 <= q < n && cls[p] == cls[q] && (cls[p] < done || cls[p] >= fresh)
            ==> !separates(incoming, p, q)
}

/// The block indices after block `c` has kept the states of `kept` and
/// handed its other states to the new block `fresh`.
pub open spec fn split_classes(cls: Seq<int>, c: int, fresh: int, kept: Seq<u32>) -> Seq<int> {
    Seq::new(
        cls.len(),
        |q: int|
            if cls[q] == c && !kept.contains(q as u32) {
                fresh
            } else {
                cls[q]
            },
    )
}

/// `kept` and `moved` divide block `c` between them.
pub open spec fn halves(cls: Seq<int>, c: int, kept: Seq<u32>, moved: Seq<u32>, n: int) -> bool {
    &&& forall|q: int|
        0 <= q < n ==> (#[trigger] cls[q] == c <==> kept.contains(q as u32) || moved.contains(
            q as u32,
        ))
    &&& forall|q: int| 0 <= q < n ==> !(#[trigger] kept.contains(q as u32) && moved.contains(q as u32))
}

/// `index` lists for each state and byte the states that the byte leads
/// there.
pub open spec fn index_ok(dfa: DFA, index: Seq<Vec<Vec<u32>>>) -> bool {
    &&& index.len() == dfa.len()
    &&& forall|t: int| 0 <= t < index.len() ==> (#[trigger] index[t])@.len() == ALPHABET_SIZE
    &&& forall|t: int, b: int, x: u32|
        0 <= t < index.len() && 0 <= b < 256 ==> (#[trigger] index[t]@[b]@.contains(x) <==> (
        x as int) < dfa.len() && dfa.states@[x as int].transitions@[b] == t)
}

/// Every identifier in every set is a state below `n`.
pub open spec fn sets_below(sets: Seq<StateSet>, n: int) -> bool {
    forall|w: int, k: int|
        0 <= w < sets.len() && 0 <= k < sets[w]@.len() ==> (#[trigger] sets[w]@[k] as int) < n
}

/// Some state is mapped to `k`.
pub open spec fn has_preimage(f: Seq<int>, k: int) -> bool {
    exists|q: int| 0 <= q < f.len() && #[trigger] f[q] == k
}

/// `m` is `dfa` with the states of each class of `f` made one state: `f`
/// maps every state of `dfa` onto a state of `m` and commutes with the
/// transitions, the accepting flags and the start.
pub open spec fn quotient_of(m: DFA, dfa: DFA, f: Seq<int>) -> bool {
    &&& f.len() == dfa.len()
    &&& forall|q: int| 0 <= q < dfa.len() ==> 0 <= #[trigger] f[q] < m.len()
    &&& forall|q: int|
        0 <= q < dfa.len() ==> m.states@[#[trigger] f[q]].is_match == dfa.states@[q].is_match
    &&& forall|q: int, b: u8|
        0 <= q < dfa.len() ==> m.step(f[q], b) == f[#[trigger] dfa.step(q, b)]
    &&& m.start as int == f[dfa.start as int]
    &&& forall|k: int| 0 <= k < m.len() ==> #[trigger] has_preimage(f, k)
}

/// No state before `p` is mapped to the state that `p` is mapped to.
pub open spec fn is_least(f: Seq<int>, p: int) -> bool {
    forall|j: int| 0 <= j < p ==> #[trigger] f[j] != f[p]
}

/// The states that `f` maps to stand in the order of the least states
/// that are mapped to them.
pub open spec fn keeps_order(f: Seq<int>) -> bool {
    forall|p: int, q: int|
        #![trigger f[p], f[q]]
        0 <= p < q < f.len() && is_least(f, p) && is_least(f, q) ==> f[p] < f[q]
}

/// `m` is `dfa` with the states that accept the same inputs made one
/// state: some map of the states of `dfa` onto those of `m` commutes with
/// the transitions, the accepting flags and the start, and gives states
/// that no input tells apart the same state. The states of `m` stand in
/// the order of the least states that they are made of.
pub open spec fn collapses(m: DFA, dfa: DFA) -> bool {
    exists|f: Seq<int>| #[trigger]
        quotient_of(m, dfa, f) && keeps_order(f) && forall|p: int, q: int|
            #![trigger f[p], f[q]]
            0 <= p < dfa.len() && 0 <= q < dfa.len() && !dfa.distinguishable(p, q) ==> f[p]
                == f[q]
}

/// Below every state that is mapped to `k` stands a least one.
pub proof fn lemma_least(f: Seq<int>, p: int, k: int) -> (q: int)
    requires
        0 <= p < f.len(),
        f[p] == k,
    ensures
        0 <= q <= p,
        f[q] == k,
        is_least(f, q),
    decreases p,
{
    if is_least(f, p) {
        p
    } else {
        let j = choose|j: int| 0 <= j < p && #[trigger] f[j] == f[p];
        lemma_least(f, j, k)
    }
}

/// An automaton that begins in state 1 and accepts some input still
/// begins in state 1 when its states that accept the same inputs have been
/// made one state.
pub proof fn lemma_start_stays(dfa: DFA, m: DFA, input: Seq<u8>)
    requires
        dfa.wf(),
        m.wf(),
        collapses(m, dfa),
        dfa.start == 1,
        dfa.accepts(input),
    ensures
        m.start == 1,
{
    let f = choose|f: Seq<int>| #[trigger]
        quotient_of(m, dfa, f) && keeps_order(f) && forall|p: int, q: int|
            #![trigger f[p], f[q]]
            0 <= p < dfa.len() && 0 <= q < dfa.len() && !dfa.distinguishable(p, q) ==> f[p]
                == f[q];
    assert(has_preimage(f, 0));
    let p0 = choose|p: int| 0 <= p < f.len() && #[trigger] f[p] == 0;
    assert(!dfa.distinguishable(0, p0)) by {
        assert forall|text: Seq<u8>| dfa.accepts_from(0, text) == dfa.accepts_from(p0, text) by {
            dfa.lemma_dead_absorbs(text);
            m.lemma_dead_absorbs(text);
            lemma_quotient_runs(m, dfa, f, p0, text);
        }
    }
    assert(f[0] == f[p0]);
    lemma_quotient_runs(m, dfa, f, 1, input);
    m.lemma_dead_absorbs(input);
    assert(f[1] != 0);
    if f[1] != 1 {
        assert(has_preimage(f, 1));
        let p1 = choose|p: int| 0 <= p < f.len() && #[trigger] f[p] == 1;
        let q = lemma_least(f, p1, 1);
        assert(q > 1);
        assert(is_least(f, 1)) by {
            assert forall|j: int| 0 <= j < 1 implies #[trigger] f[j] != f[1] by {}
        }
        assert(f[1] < f[q]);
    }
}

/// The automata accept the same inputs.
pub open spec fn equivalent(a: DFA, b: DFA) -> bool {
    forall|input: Seq<u8>| a.accepts(input) == b.accepts(input)
}

/// No two different states of `dfa` accept the same inputs.
pub open spec fn is_minimal(dfa: DFA) -> bool {
    forall|p: int, q: int|
        0 <= p < dfa.len() && 0 <= q < dfa.len() && p != q ==> #[trigger] dfa.distinguishable(p, q)
}

/// A partition has no more blocks than there are states.
pub proof fn lemma_blocks_bounded(parts: Seq<StateSet>, cls: Seq<int>, n: int)
    requires
        partition_ok(parts, cls, n),
        0 <= n <= u32::MAX,
    ensures
        parts.len() <= n,
{
    let firsts = Seq::new(parts.len(), |i: int| parts[i]@[0]);
    assert forall|i: int, j: int| 0 <= i < firsts.len() && 0 <= j < firsts.len() && i != j implies firsts[i] != firsts[j] by {
        assert(cls[parts[i]@[0] as int] == i);
        assert(cls[parts[j]@[0] as int] == j);
    }
    assert forall|i: int| 0 <= i < firsts.len() implies (#[trigger] firsts[i] as nat) < n as nat by {
        assert((parts[i]@[0] as int) < n);
    }
    lemma_distinct_bounded(firsts, n as nat);
}

/// States of one block of a congruence stay in one block whatever is read,
/// and accept the same inputs.
pub proof fn lemma_congruence_runs(dfa: DFA, cls: Seq<int>, p: int, q: int, input: Seq<u8>)
    requires
        dfa.wf(),
        cls.len() == dfa.len(),
        congruence(dfa, cls),
        same_flags(dfa, cls),
        0 <= p < dfa.len(),
        0 <= q < dfa.len(),
        cls[p] == cls[q],
    ensures
        cls[dfa.run(p, input)] == cls[dfa.run(q, input)],
        dfa.accepts_from(p, input) == dfa.accepts_from(q, input),
    decreases input.len(),
{
    dfa.lemma_run_in_range(p, input);
    dfa.lemma_run_in_range(q, input);
    if input.len() > 0 {
        lemma_congruence_runs(dfa, cls, p, q, input.drop_last());
        dfa.lemma_run_in_range(p, input.drop_last());
        dfa.lemma_run_in_range(q, input.drop_last());
        let pn = dfa.run(p, input.drop_last());
        let qn = dfa.run(q, input.drop_last());
        assert(cls[dfa.step(pn, input.last())] == cls[dfa.step(qn, input.last())]);
    }
}

/// A quotient reads every input as the automaton that it was made from
/// does.
pub proof fn lemma_quotient_runs(m: DFA, dfa: DFA, f: Seq<int>, q: int, input: Seq<u8>)
    requires
        dfa.wf(),
        quotient_of(m, dfa, f),
        0 <= q < dfa.len(),
    ensures
        m.run(f[q], input) == f[dfa.run(q, input)],
        m.accepts_from(f[q], input) == dfa.accepts_from(q, input),
    decreases input.len(),
{
    dfa.lemma_run_in_range(q, input);
    if input.len() > 0 {
        lemma_quotient_runs(m, dfa, f, q, input.drop_last());
        dfa.lemma_run_in_range(q, input.drop_last());
        let q1 = dfa.run(q, input.drop_last());
        assert(m.step(f[q1], input.last()) == f[dfa.step(q1, input.last())]);
    }
}

/// A quotient accepts the same inputs as the automaton that it was made
/// from.
pub proof fn lemma_quotient_equivalent(m: DFA, dfa: DFA, f: Seq<int>)
    requires
        dfa.wf(),
        quotient_of(m, dfa, f),
    ensures
        equivalent(dfa, m),
{
    assert forall|input: Seq<u8>| dfa.accepts(input) == m.accepts(input) by {
        lemma_quotient_runs(m, dfa, f, dfa.start as int, input);
    }
}

/// Automata that accept the same inputs report the same longest match on
/// every input.
pub proof fn lemma_equivalent_same_match(a: DFA, b: DFA, input: Seq<u8>, end: Option<usize>)
    requires
        equivalent(a, b),
    ensures
        a.is_longest_match(input, end) == b.is_longest_match(input, end),
{
    assert forall|j: int| a.accepts(#[trigger] input.take(j)) == b.accepts(input.take(j)) by {}
}

/// An automaton that accepts the inputs of a deterministic automaton of
/// a table of states accepts what the table accepts.
pub proof fn lemma_equivalent_language(a: DFA, b: DFA, t: Seq<StateModel>)
    requires
        same_language(a, t),
        equivalent(a, b),
    ensures
        same_language(b, t),
{
    assert forall|input: Seq<u8>| b.accepts(input) == nfa_accepts(t, input) by {
        assert(a.accepts(input) == nfa_accepts(t, input));
    }
}

/// States that some input tells apart after byte `b` are told apart by that
/// input behind `b`.
pub proof fn lemma_distinguishable_step(dfa: DFA, p: int, q: int, b: u8)
    requires
        dfa.distinguishable(dfa.step(p, b), dfa.step(q, b)),
    ensures
        dfa.distinguishable(p, q),
{
    let rest = choose|input: Seq<u8>|
        dfa.accepts_from(dfa.step(p, b), input) != dfa.accepts_from(dfa.step(q, b), input);
    let first = seq![b];
    dfa.lemma_run_concat(p, first, rest);
    dfa.lemma_run_concat(q, first, rest);
    assert(first.drop_last() =~= Seq::<u8>::empty());
    assert(dfa.run(p, first) == dfa.step(dfa.run(p, first.drop_last()), first.last()));
    assert(dfa.run(q, first) == dfa.step(dfa.run(q, first.drop_last()), first.last()));
    assert(dfa.run(p, Seq::<u8>::empty()) == p);
    assert(dfa.run(q, Seq::<u8>::empty()) == q);
    assert(dfa.accepts_from(p, first + rest) != dfa.accepts_from(q, first + rest));
}

/// In a quotient by a partition whose different blocks are told apart, no
/// two different states accept the same inputs.
pub proof fn lemma_quotient_minimal(m: DFA, dfa: DFA, f: Seq<int>, cls: Seq<int>)
    requires
        dfa.wf(),
        quotient_of(m, dfa, f),
        cls.len() == dfa.len(),
        justified(dfa, cls),
        forall|p: int, q: int|
            #![trigger f[p], f[q]]
            0 <= p < dfa.len() && 0 <= q < dfa.len() && cls[p] == cls[q] ==> f[p] == f[q],
    ensures
        is_minimal(m),
{
    assert forall|i: int, j: int| 0 <= i < m.len() && 0 <= j < m.len() && i != j implies #[trigger] m.distinguishable(i, j) by {
        assert(has_preimage(f, i) && has_preimage(f, j));
        let p = choose|p: int| 0 <= p < f.len() && #[trigger] f[p] == i;
        let q = choose|q: int| 0 <= q < f.len() && #[trigger] f[q] == j;
        assert(cls[p] != cls[q]);
        assert(dfa.distinguishable(p, q));
        let input = choose|input: Seq<u8>| dfa.accepts_from(p, input) != dfa.accepts_from(q, input);
        lemma_quotient_runs(m, dfa, f, p, input);
        lemma_quotient_runs(m, dfa, f, q, input);
        assert(m.accepts_from(i, input) != m.accepts_from(j, input));
    }
}

/// States that share a block of `fine` share a block of `coarse`.
pub open spec fn refines(fine: Seq<int>, coarse: Seq<int>, n: int) -> bool {
    forall|p: int, q: int|
        #![trigger fine[p], fine[q]]
        0 <= p < n && 0 <= q < n && fine[p] == fine[q] ==> coarse[p] == coarse[q]
}

/// What a block holds is what its two halves hold.
pub proof fn lemma_halves(
    parts: Seq<StateSet>,
    cls: Seq<int>,
    n: int,
    c: int,
    kept: Seq<u32>,
    moved: Seq<u32>,
)
    requires
        partition_ok(parts, cls, n),
        n <= u32::MAX,
        0 <= c < parts.len(),
        forall|x: u32| kept.contains(x) || moved.contains(x) <==> parts[c]@.contains(x),
        forall|x: u32| !(kept.contains(x) && moved.contains(x)),
    ensures
        halves(cls, c, kept, moved, n),
{
    assert forall|q: int| 0 <= q < n implies (#[trigger] cls[q] == c <==> kept.contains(q as u32)
        || moved.contains(q as u32)) by {
        if parts[c]@.contains(q as u32) {
            let k = choose|k: int| 0 <= k < parts[c]@.len() && parts[c]@[k] == q as u32;
            assert(cls[parts[c]@[k] as int] == c);
        }
    }
}

/// Splitting a block yields a partition again, and a finer one.
pub proof fn lemma_split_partition(
    parts: Seq<StateSet>,
    cls: Seq<int>,
    n: int,
    c: int,
    kept: StateSet,
    moved: StateSet,
)
    requires
        partition_ok(parts, cls, n),
        n <= u32::MAX,
        0 <= c < parts.len(),
        kept.is_canonical(),
        moved.is_canonical(),
        kept@.len() > 0,
        moved@.len() > 0,
        forall|x: u32| kept@.contains(x) || moved@.contains(x) <==> parts[c]@.contains(x),
        forall|x: u32| !(kept@.contains(x) && moved@.contains(x)),
    ensures
        partition_ok(
            parts.update(c, kept).push(moved),
            split_classes(cls, c, parts.len() as int, kept@),
            n,
        ),
        refines(split_classes(cls, c, parts.len() as int, kept@), cls, n),
{
    let fresh = parts.len() as int;
    let parts2 = parts.update(c, kept).push(moved);
    let cls2 = split_classes(cls, c, fresh, kept@);
    lemma_halves(parts, cls, n, c, kept@, moved@);
    assert forall|q: int| 0 <= q < n implies 0 <= #[trigger] cls2[q] < parts2.len()
        && parts2[cls2[q]]@.contains(q as u32) by {
        assert(0 <= cls[q] < parts.len() && parts[cls[q]]@.contains(q as u32));
    }
    assert forall|i: int| 0 <= i < parts2.len() implies (#[trigger] parts2[i]).is_canonical()
        && parts2[i]@.len() > 0 by {
        if i != c && i != fresh {
            assert(parts[i].is_canonical());
        }
    }
    assert forall|i: int, k: int| 0 <= i < parts2.len() && 0 <= k < parts2[i]@.len() implies (
    #[trigger] parts2[i]@[k] as int) < n && cls2[parts2[i]@[k] as int] == i by {
        let x = parts2[i]@[k];
        if i == c || i == fresh {
            assert(parts2[i]@.contains(x));
            assert(parts[c]@.contains(x));
            let j = choose|j: int| 0 <= j < parts[c]@.len() && parts[c]@[j] == x;
            assert((parts[c]@[j] as int) < n && cls[parts[c]@[j] as int] == c);
        } else {
            assert((parts[i]@[k] as int) < n && cls[parts[i]@[k] as int] == i);
        }
    }
    assert forall|p: int, q: int|
        #![trigger cls2[p], cls2[q]]
        0 <= p < n && 0 <= q < n && cls2[p] == cls2[q] implies cls[p] == cls[q] by {
        assert(0 <= cls[p] < parts.len() && 0 <= cls[q] < parts.len());
    }
}

/// A finer partition keeps what holds of all states that share a block.
pub proof fn lemma_refines_keeps(
    dfa: DFA,
    fine: Seq<int>,
    coarse: Seq<int>,
    cur: Seq<u32>,
    k: int,
)
    requires
        refines(fine, coarse, dfa.len()),
        dfa.wf(),
        fine.len() == dfa.len(),
        coarse.len() == dfa.len(),
    ensures
        same_flags(dfa, coarse) ==> same_flags(dfa, fine),
        stable_upto(dfa, coarse, cur, k) ==> stable_upto(dfa, fine, cur, k),
        saturated(cur, coarse, dfa.len()) ==> saturated(cur, fine, dfa.len()),
{
    if stable_upto(dfa, coarse, cur, k) {
        assert forall|p: int, q: int, b: u8|
            0 <= p < dfa.len() && 0 <= q < dfa.len() && (b as int) < k implies !#[trigger] cur_splits(
            dfa,
            fine,
            cur,
            p,
            q,
            b,
        ) by {
            assert(!cur_splits(dfa, coarse, cur, p, q, b));
            if fine[p] == fine[q] {
                assert(coarse[p] == coarse[q]);
            }
        }
    }
}

/// After a split, the states of different blocks are still told apart by
/// some input: the halves by the byte that split them and what follows it.
pub proof fn lemma_split_justified(
    dfa: DFA,
    cls: Seq<int>,
    cur: Seq<u32>,
    b: u8,
    incoming: Seq<u32>,
    c: int,
    fresh: int,
    kept: Seq<u32>,
    moved: Seq<u32>,
)
    requires
        dfa.wf(),
        cls.len() == dfa.len(),
        justified(dfa, cls),
        saturated(cur, cls, dfa.len()),
        incoming_of(dfa, cur, b, incoming),
        halves(cls, c, kept, moved, dfa.len()),
        forall|q: int| 0 <= q < dfa.len() ==> #[trigger] cls[q] != fresh,
        forall|x: u32| kept.contains(x) ==> incoming.contains(x),
        forall|x: u32| moved.contains(x) ==> !incoming.contains(x),
    ensures
        justified(dfa, split_classes(cls, c, fresh, kept)),
{
    let cls2 = split_classes(cls, c, fresh, kept);
    let n = dfa.len();
    assert forall|p: int, q: int|
        #![trigger cls2[p], cls2[q]]
        0 <= p < n && 0 <= q < n && cls2[p] != cls2[q] implies dfa.distinguishable(p, q) by {
        if cls[p] != cls[q] {
            assert(dfa.distinguishable(p, q));
        } else {
            assert(cls[p] == c && cls[q] == c);
            assert(kept.contains(p as u32) != kept.contains(q as u32));
            assert(incoming.contains(p as u32) != incoming.contains(q as u32));
            let s = dfa.step(p, b);
            let t = dfa.step(q, b);
            assert((dfa.states@[p].transitions@[b as int] as int) < n);
            assert((dfa.states@[q].transitions@[b as int] as int) < n);
            assert(separates(cur, s, t));
            assert(cls[s] != cls[t]);
            assert(dfa.distinguishable(s, t));
            lemma_distinguishable_step(dfa, p, q, b);
        }
    }
}

/// After a split the halves are made of whole blocks, and so is whatever
/// was before.
pub proof fn lemma_split_saturated(
    cls: Seq<int>,
    n: int,
    c: int,
    fresh: int,
    kept: Seq<u32>,
    moved: Seq<u32>,
)
    requires
        cls.len() == n,
        n <= u32::MAX,
        halves(cls, c, kept, moved, n),
        forall|q: int| 0 <= q < n ==> #[trigger] cls[q] != fresh,
    ensures
        saturated(kept, split_classes(cls, c, fresh, kept), n),
        saturated(moved, split_classes(cls, c, fresh, kept), n),
{
    let cls2 = split_classes(cls, c, fresh, kept);
    assert forall|p: int, q: int|
        #![trigger cls2[p], cls2[q]]
        0 <= p < n && 0 <= q < n && cls2[p] == cls2[q] implies !separates(kept, p, q)
        && !separates(moved, p, q) by {
        assert(cls[p] == c <==> kept.contains(p as u32) || moved.contains(p as u32));
        assert(cls[q] == c <==> kept.contains(q as u32) || moved.contains(q as u32));
        assert(!(kept.contains(p as u32) && moved.contains(p as u32)));
        assert(!(kept.contains(q as u32) && moved.contains(q as u32)));
    }
}

/// After a split of a block that was waiting, its two halves wait in its
/// place and announce all that it announced.
pub proof fn lemma_split_pending_queued(
    dfa: DFA,
    cls: Seq<int>,
    waiting: Seq<StateSet>,
    cur: Seq<u32>,
    c: int,
    fresh: int,
    kept: StateSet,
    moved: StateSet,
    at: int,
)
    requires
        dfa.wf(),
        cls.len() == dfa.len(),
        pending(dfa, cls, waiting, cur),
        halves(cls, c, kept@, moved@, dfa.len()),
        forall|q: int| 0 <= q < dfa.len() ==> #[trigger] cls[q] != fresh,
        0 <= at < waiting.len(),
        forall|x: u32| waiting[at]@.contains(x) <==> kept@.contains(x) || moved@.contains(x),
    ensures
        pending(
            dfa,
            split_classes(cls, c, fresh, kept@),
            waiting.update(at, kept).push(moved),
            cur,
        ),
{
    let cls2 = split_classes(cls, c, fresh, kept@);
    let waiting2 = waiting.update(at, kept).push(moved);
    let n = dfa.len();
    assert forall|p: int, q: int, b: u8|
        0 <= p < n && 0 <= q < n && #[trigger] violates(dfa, cls2, p, q, b) implies covered(
        dfa,
        waiting2,
        cur,
        p,
        q,
        b,
    ) by {
        let s = dfa.step(p, b);
        let t = dfa.step(q, b);
        assert((dfa.states@[p].transitions@[b as int] as int) < n);
        assert((dfa.states@[q].transitions@[b as int] as int) < n);
        assert(cls[p] == cls[q]);
        if cls[s] != cls[t] {
            assert(violates(dfa, cls, p, q, b));
            assert(covered(dfa, waiting, cur, p, q, b));
            if !separates(cur, s, t) {
                let w = choose|w: int|
                    0 <= w < waiting.len() && separates((#[trigger] waiting[w])@, s, t);
                if w != at {
                    assert(waiting2[w] == waiting[w]);
                    assert(separates(waiting2[w]@, s, t));
                } else {
                    assert(cls[s] == c <==> kept@.contains(s as u32) || moved@.contains(s as u32));
                    assert(cls[t] == c <==> kept@.contains(t as u32) || moved@.contains(t as u32));
                    if kept@.contains(s as u32) || kept@.contains(t as u32) {
                        assert(waiting2[at] == kept);
                        assert(separates(waiting2[at]@, s, t));
                    } else {
                        assert(waiting2[waiting.len() as int] == moved);
                        assert(separates(waiting2[waiting.len() as int]@, s, t));
                    }
                }
            }
        } else {
            assert(cls[s] == c);
            assert(waiting2[at] == kept);
            assert(separates(waiting2[at]@, s, t));
        }
    }
}

/// After a split of a block that was not waiting, one of its halves waits
/// and announces that the two are now apart.
pub proof fn lemma_split_pending_new(
    dfa: DFA,
    cls: Seq<int>,
    waiting: Seq<StateSet>,
    cur: Seq<u32>,
    c: int,
    fresh: int,
    kept: Seq<u32>,
    moved: Seq<u32>,
    half: StateSet,
)
    requires
        dfa.wf(),
        cls.len() == dfa.len(),
        pending(dfa, cls, waiting, cur),
        halves(cls, c, kept, moved, dfa.len()),
        forall|q: int| 0 <= q < dfa.len() ==> #[trigger] cls[q] != fresh,
        half@ == kept || half@ == moved,
    ensures
        pending(dfa, split_classes(cls, c, fresh, kept), waiting.push(half), cur),
{
    let cls2 = split_classes(cls, c, fresh, kept);
    let waiting2 = waiting.push(half);
    let n = dfa.len();
    assert forall|p: int, q: int, b: u8|
        0 <= p < n && 0 <= q < n && #[trigger] violates(dfa, cls2, p, q, b) implies covered(
        dfa,
        waiting2,
        cur,
        p,
        q,
        b,
    ) by {
        let s = dfa.step(p, b);
        let t = dfa.step(q, b);
        assert((dfa.states@[p].transitions@[b as int] as int) < n);
        assert((dfa.states@[q].transitions@[b as int] as int) < n);
        assert(cls[p] == cls[q]);
        if cls[s] != cls[t] {
            assert(violates(dfa, cls, p, q, b));
            assert(covered(dfa, waiting, cur, p, q, b));
            if !separates(cur, s, t) {
                let w = choose|w: int|
                    0 <= w < waiting.len() && separates((#[trigger] waiting[w])@, s, t);
                assert(waiting2[w] == waiting[w]);
                assert(separates(waiting2[w]@, s, t));
            }
        } else {
            assert(cls[s] == c <==> kept.contains(s as u32) || moved.contains(s as u32));
            assert(cls[t] == c <==> kept.contains(t as u32) || moved.contains(t as u32));
            assert(!(kept.contains(s as u32) && moved.contains(s as u32)));
            assert(!(kept.contains(t as u32) && moved.contains(t as u32)));
            assert(waiting2[waiting.len() as int] == half);
            assert(separates(waiting2[waiting.len() as int]@, s, t));
        }
    }
}

/// Once every block lies inside or outside of what byte `k` leads into
/// `cur`, no block is split by `cur` on that byte.
pub proof fn lemma_uniform_stable(dfa: DFA, cls: Seq<int>, cur: Seq<u32>, k: int, incoming: Seq<u32>)
    requires
        dfa.wf(),
        cls.len() == dfa.len(),
        0 <= k < 256,
        stable_upto(dfa, cls, cur, k),
        incoming_of(dfa, cur, k as u8, incoming),
        forall|p: int, q: int|
            #![trigger cls[p], cls[q]]
            0 <= p < dfa.len() && 0 <= q < dfa.len() && cls[p] == cls[q] ==> !separates(
                incoming,
                p,
                q,
            ),
    ensures
        stable_upto(dfa, cls, cur, k + 1),
{
    let n = dfa.len();
    assert forall|p: int, q: int, b: u8|
        0 <= p < n && 0 <= q < n && (b as int) < k + 1 implies !#[trigger] cur_splits(
        dfa,
        cls,
        cur,
        p,
        q,
        b,
    ) by {
        if (b as int) < k {
            assert(!cur_splits(dfa, cls, cur, p, q, b));
        } else if cls[p] == cls[q] {
            assert(!separates(incoming, p, q));
            assert(incoming.contains(p as u32) <==> cur.contains(dfa.step(p, b) as u32));
            assert(incoming.contains(q as u32) <==> cur.contains(dfa.step(q, b) as u32));
        }
    }
}

/// When a set has been processed on every byte, it announces nothing any
/// more and the work list alone announces what is left.
pub proof fn lemma_processed(dfa: DFA, cls: Seq<int>, waiting: Seq<StateSet>, cur: Seq<u32>)
    requires
        pending(dfa, cls, waiting, cur),
        stable_upto(dfa, cls, cur, 256),
    ensures
        pending(dfa, cls, waiting, Seq::<u32>::empty()),
{
    let none = Seq::<u32>::empty();
    assert forall|p: int, q: int, b: u8|
        0 <= p < dfa.len() && 0 <= q < dfa.len() && #[trigger] violates(dfa, cls, p, q, b)
        implies covered(dfa, waiting, none, p, q, b) by {
        assert(covered(dfa, waiting, cur, p, q, b));
        assert(!cur_splits(dfa, cls, cur, p, q, b));
    }
}

/// A set taken from the work list announces what it announced there.
pub proof fn lemma_taken(dfa: DFA, cls: Seq<int>, waiting: Seq<StateSet>)
    requires
        waiting.len() > 0,
        pending(dfa, cls, waiting, Seq::<u32>::empty()),
    ensures
        pending(dfa, cls, waiting.drop_last(), waiting.last()@),
{
    let none = Seq::<u32>::empty();
    let rest = waiting.drop_last();
    let cur = waiting.last()@;
    assert forall|p: int, q: int, b: u8|
        0 <= p < dfa.len() && 0 <= q < dfa.len() && #[trigger] violates(dfa, cls, p, q, b)
        implies covered(dfa, rest, cur, p, q, b) by {
        assert(covered(dfa, waiting, none, p, q, b));
        let s = dfa.step(p, b);
        let t = dfa.step(q, b);
        let w = choose|w: int| 0 <= w < waiting.len() && separates((#[trigger] waiting[w])@, s, t);
        if w < waiting.len() - 1 {
            assert(rest[w] == waiting[w]);
            assert(separates(rest[w]@, s, t));
        }
    }
}

/// With an empty work list nothing is left to split: the blocks form a
/// congruence.
pub proof fn lemma_drained(dfa: DFA, cls: Seq<int>, waiting: Seq<StateSet>)
    requires
        waiting.len() == 0,
        pending(dfa, cls, waiting, Seq::<u32>::empty()),
    ensures
        congruence(dfa, cls),
{
    let none = Seq::<u32>::empty();
    assert forall|p: int, q: int, b: u8|
        #![trigger dfa.step(p, b), dfa.step(q, b)]
        0 <= p < dfa.len() && 0 <= q < dfa.len() && cls[p] == cls[q] implies cls[dfa.step(p, b)]
        == cls[dfa.step(q, b)] by {
        if cls[dfa.step(p, b)] != cls[dfa.step(q, b)] {
            assert(violates(dfa, cls, p, q, b));
            assert(covered(dfa, waiting, none, p, q, b));
        }
    }
}

/// The block index of every state in the partition into accepting and other
/// states; `match_first` tells which of the two is block 0.
pub open spec fn initial_classes(dfa: DFA, match_first: bool) -> Seq<int> {
    Seq::new(
        dfa.len() as nat,
        |q: int|
            if dfa.states@[q].is_match == match_first {
                0int
            } else {
                1int
            },
    )
}

/// The state `r` stands for its block.
pub open spec fn is_representative(reps: Seq<u32>, r: int) -> bool {
    reps[r] as int == r
}

/// Some representative below `upto` has the number `k`.
pub open spec fn numbered(reps: Seq<u32>, ids: Seq<u32>, upto: int, k: int) -> bool {
    exists|r: int| 0 <= r < upto && is_representative(reps, r) && #[trigger] ids[r] as int == k
}

/// `ids` numbers the representatives below `upto` in increasing order with
/// the numbers below `count`.
pub open spec fn numbering_ok(reps: Seq<u32>, ids: Seq<u32>, count: int, upto: int) -> bool {
    &&& 0 <= count <= upto
    &&& forall|r: int|
        0 <= r < upto && is_representative(reps, r) ==> (#[trigger] ids[r] as int) < count
            && ids[r] as int <= r
    &&& forall|r1: int, r2: int|
        #![trigger ids[r1], ids[r2]]
        0 <= r1 < r2 < upto && is_representative(reps, r1) && is_representative(reps, r2)
            ==> ids[r1] < ids[r2]
    &&& forall|k: int| 0 <= k < count ==> #[trigger] numbered(reps, ids, upto, k)
    &&& (forall|j: int| 0 <= j < upto ==> #[trigger] is_representative(reps, j)) ==> count == upto
}

/// `new` is `old` with every transition led to the number of the
/// representative of its target.
pub open spec fn rewritten(new: DFAState, old: DFAState, reps: Seq<u32>, ids: Seq<u32>) -> bool {
    &&& new.is_match == old.is_match
    &&& new.transitions@.len() == ALPHABET_SIZE
    &&& forall|b: int|
        0 <= b < 256 ==> #[trigger] new.transitions@[b] == ids[reps[old.transitions@[b] as int] as int]
}

/// All the states of a block are mapped to one state.
pub open spec fn merges_blocks(f: Seq<int>, cls: Seq<int>) -> bool {
    forall|p: int, q: int|
        #![trigger f[p], f[q]]
        0 <= p < f.len() && 0 <= q < f.len() && cls[p] == cls[q] ==> f[p] == f[q]
}

/// The least state of each block, for every state of the block.
fn representatives(partitions: &Vec<StateSet>, n: usize, Ghost(cls): Ghost<Seq<int>>) -> (reps: Vec<
    u32,
>)
    requires
        partition_ok(partitions@, cls, n as int),
        n <= u32::MAX,
    ensures
        reps@.len() == n,
        forall|q: int| 0 <= q < n ==> #[trigger] reps@[q] == partitions@[cls[q]]@[0],
{
    let mut reps: Vec<u32> = Vec::new();
    let mut i: usize = 0;
    while i < n
        invariant
            i <= n,
            reps@.len() == i,
        decreases n - i,
    {
        reps.push(DFA_DEAD);
        i += 1;
    }
    let mut p: usize = 0;
    while p < partitions.len()
        invariant
            p <= partitions@.len(),
            reps@.len() == n,
            n <= u32::MAX,
            partition_ok(partitions@, cls, n as int),
            forall|q: int| 0 <= q < n && cls[q] < p ==> #[trigger] reps@[q] == partitions@[cls[q]]@[0],
        decreases partitions@.len() - p,
    {
        let first = partitions[p].first();
        let mut k: usize = 0;
        while k < partitions[p].len()
            invariant
                p < partitions@.len(),
                k <= partitions@[p as int]@.len(),
                reps@.len() == n,
                n <= u32::MAX,
                first == partitions@[p as int]@[0],
                partition_ok(partitions@, cls, n as int),
                forall|q: int|
                    0 <= q < n && cls[q] < p ==> #[trigger] reps@[q] == partitions@[cls[q]]@[0],
                forall|j: int|
                    0 <= j < k ==> reps@[#[trigger] partitions@[p as int]@[j] as int] == first,
            decreases partitions@[p as int]@.len() - k,
        {
            let id = partitions[p].get(k);
            assert((partitions@[p as int]@[k as int] as int) < n && cls[partitions@[p as int]@[k as int] as int] == p);
            reps[id as usize] = first;
            k += 1;
        }
        proof {
            assert forall|q: int| 0 <= q < n && cls[q] < p + 1 implies #[trigger] reps@[q]
                == partitions@[cls[q]]@[0] by {
                if cls[q] == p {
                    assert(partitions@[cls[q]]@.contains(q as u32));
                    let j = choose|j: int|
                        0 <= j < partitions@[p as int]@.len() && partitions@[p as int]@[j] == q as u32;
                    assert(reps@[partitions@[p as int]@[j] as int] == first);
                }
            }
        }
        p += 1;
    }
    reps
}

/// Numbers the representatives in increasing order from 0 and returns the
/// numbers with their count.
fn number_representatives(reps: &Vec<u32>) -> (out: (Vec<u32>, usize))
    requires
        reps@.len() <= u32::MAX,
    ensures
        out.0@.len() == reps@.len(),
        numbering_ok(reps@, out.0@, out.1 as int, reps@.len() as int),
{
    let n = reps.len();
    let mut ids: Vec<u32> = Vec::new();
    let mut i: usize = 0;
    while i < n
        invariant
            i <= n,
            ids@.len() == i,
        decreases n - i,
    {
        ids.push(DFA_DEAD);
        i += 1;
    }
    let mut new_id: u32 = 0;
    let mut id: usize = 0;
    while id < n
        invariant
            id <= n,
            n == reps@.len(),
            n <= u32::MAX,
            ids@.len() == n,
            numbering_ok(reps@, ids@, new_id as int, id as int),
        decreases n - id,
    {
        let ghost before = ids@;
        let ghost count = new_id as int;
        if reps[id] as usize == id {
            ids[id] = new_id;
            new_id += 1;
            proof {
                assert forall|k: int| 0 <= k < new_id implies #[trigger] numbered(
                    reps@,
                    ids@,
                    id + 1,
                    k,
                ) by {
                    if k < count {
                        assert(numbered(reps@, before, id as int, k));
                        let r = choose|r: int|
                            0 <= r < id && is_representative(reps@, r) && #[trigger] before[r] as int
                                == k;
                        assert(ids@[r] as int == k);
                    } else {
                        assert(ids@[id as int] as int == k);
                    }
                }
                assert forall|r: int|
                    0 <= r < id + 1 && is_representative(reps@, r) implies (#[trigger] ids@[r]
                    as int) < new_id && ids@[r] as int <= r by {
                    if r < id {
                        assert((before[r] as int) < count);
                    }
                }
                assert forall|r1: int, r2: int|
                    #![trigger ids@[r1], ids@[r2]]
                    0 <= r1 < r2 < id + 1 && is_representative(reps@, r1) && is_representative(
                        reps@,
                        r2,
                    ) implies ids@[r1] < ids@[r2] by {
                    assert((before[r1] as int) < count);
                    if r2 < id {
                        assert(before[r1] < before[r2]);
                    }
                }
                if forall|j: int| 0 <= j < id + 1 ==> #[trigger] is_representative(reps@, j) {
                    assert forall|j: int| 0 <= j < id implies #[trigger] is_representative(
                        reps@,
                        j,
                    ) by {}
                }
            }
        } else {
            proof {
                assert(!is_representative(reps@, id as int));
                assert forall|k: int| 0 <= k < new_id implies #[trigger] numbered(
                    reps@,
                    ids@,
                    id + 1,
                    k,
                ) by {
                    assert(numbered(reps@, before, id as int, k));
                    let r = choose|r: int|
                        0 <= r < id && is_representative(reps@, r) && #[trigger] before[r] as int == k;
                    assert(ids@[r] as int == k);
                }
            }
        }
        id += 1;
    }
    (ids, new_id as usize)
}

/// The first position in `waiting` of a set that holds what `set` holds.
fn position(waiting: &Vec<StateSet>, set: &StateSet) -> (at: Option<usize>)
    ensures
        match at {
            Some(i) => i < waiting@.len() && waiting@[i as int]@ == set@ && forall|j: int|
                0 <= j < i ==> (#[trigger] waiting@[j])@ != set@,
            None => forall|j: int| 0 <= j < waiting@.len() ==> (#[trigger] waiting@[j])@ != set@,
        },
{
    let mut i: usize = 0;
    while i < waiting.len()
        invariant
            i <= waiting@.len(),
            forall|j: int| 0 <= j < i ==> (#[trigger] waiting@[j])@ != set@,
        decreases waiting@.len() - i,
    {
        if waiting[i].same_as(set) {
            return Some(i);
        }
        i += 1;
    }
    None
}

/// Appends every identifier of `list` to `set`.
fn add_all(set: &mut StateSet, list: &Vec<u32>)
    ensures
        final(set)@ == old(set)@ + list@,
{
    let mut j: usize = 0;
    while j < list.len()
        invariant
            j <= list@.len(),
            set@ == old(set)@ + list@.take(j as int),
        decreases list@.len() - j,
    {
        set.add(list[j]);
        j += 1;
        assert(set@ =~= old(set)@ + list@.take(j as int));
    }
    assert(list@.take(j as int) =~= list@);
}

/// The state of a minimisation: the automaton, for every state and byte the
/// states that the byte leads there, the blocks found so far, and the sets
/// whose predecessors may still split a block.
pub struct Minimizer {
    dfa: DFA,
    in_transitions: Vec<Vec<Vec<u32>>>,
    partitions: Vec<StateSet>,
    waiting: Vec<StateSet>,
    classes: Ghost<Seq<int>>,
}

impl Minimizer {
    /// The automaton that is being minimised.
    pub closed spec fn dfa(&self) -> DFA {
        self.dfa
    }

    /// The automaton is well formed and the index of incoming transitions
    /// belongs to it.
    pub closed spec fn indexed(&self) -> bool {
        self.dfa.wf() && index_ok(self.dfa, self.in_transitions@)
    }

    /// What holds while the set `cur` is being processed and has been
    /// processed on the bytes below `k`.
    pub closed spec fn base(&self, cur: Seq<u32>, k: int) -> bool {
        let n = self.dfa.len();
        &&& self.dfa.wf()
        &&& index_ok(self.dfa, self.in_transitions@)
        &&& partition_ok(self.partitions@, self.classes@, n)
        &&& self.partitions@.len() <= n
        &&& same_flags(self.dfa, self.classes@)
        &&& justified(self.dfa, self.classes@)
        &&& sets_below(self.waiting@, n)
        &&& forall|w: int|
            0 <= w < self.waiting@.len() ==> saturated(
                (#[trigger] self.waiting@[w])@,
                self.classes@,
                n,
            )
        &&& saturated(cur, self.classes@, n)
        &&& pending(self.dfa, self.classes@, self.waiting@, cur)
        &&& stable_upto(self.dfa, self.classes@, cur, k)
    }

    /// What holds between the processing of two sets: the blocks partition
    /// the states, states of one block agree on acceptance, states of
    /// different blocks are told apart by some input, and the work list
    /// announces every block that a byte still leads into two blocks.
    pub closed spec fn inv(&self) -> bool {
        self.base(Seq::<u32>::empty(), 0)
    }

    /// For every state and byte, the states that the byte leads there.
    pub fn incoming_transitions(dfa: &DFA) -> (incoming: Vec<Vec<Vec<u32>>>)
        requires
            dfa.wf(),
        ensures
            index_ok(*dfa, incoming@),
    {
        let n = dfa.states.len();
        let mut incoming: Vec<Vec<Vec<u32>>> = Vec::new();
        let mut i: usize = 0;
        while i < n
            invariant
                i <= n,
                incoming@.len() == i,
                forall|t: int| 0 <= t < i ==> (#[trigger] incoming@[t])@.len() == ALPHABET_SIZE,
                forall|t: int, b: int|
                    0 <= t < i && 0 <= b < 256 ==> (#[trigger] incoming@[t]@[b])@.len() == 0,
            decreases n - i,
        {
            let mut row: Vec<Vec<u32>> = Vec::new();
            let mut b: usize = 0;
            while b < ALPHABET_SIZE
                invariant
                    b <= ALPHABET_SIZE,
                    row@.len() == b,
                    forall|c: int| 0 <= c < b ==> (#[trigger] row@[c])@.len() == 0,
                decreases ALPHABET_SIZE - b,
            {
                row.push(Vec::new());
                b += 1;
            }
            incoming.push(row);
            i += 1;
        }
        let mut i: usize = 0;
        while i < n
            invariant
                i <= n,
                n == dfa.len(),
                dfa.wf(),
                incoming@.len() == n,
                forall|t: int| 0 <= t < n ==> (#[trigger] incoming@[t])@.len() == ALPHABET_SIZE,
                forall|t: int, b: int, x: u32|
                    0 <= t < n && 0 <= b < 256 ==> (#[trigger] incoming@[t]@[b]@.contains(x) <==> (
                    x as int) < i && dfa.states@[x as int].transitions@[b] == t),
            decreases n - i,
        {
            let mut b: usize = 0;
            while b < ALPHABET_SIZE
                invariant
                    i < n,
                    b <= ALPHABET_SIZE,
                    n == dfa.len(),
                    dfa.wf(),
                    incoming@.len() == n,
                    forall|t: int| 0 <= t < n ==> (#[trigger] incoming@[t])@.len() == ALPHABET_SIZE,
                    forall|t: int, c: int, x: u32|
                        0 <= t < n && 0 <= c < 256 ==> (#[trigger] incoming@[t]@[c]@.contains(x)
                            <==> ((x as int) < i || (x as int == i && c < b))
                            && dfa.states@[x as int].transitions@[c] == t),
                decreases ALPHABET_SIZE - b,
            {
                let next = dfa.states[i].transitions[b];
                assert((dfa.states@[i as int].transitions@[b as int] as int) < n);
                let ghost before = incoming@;
                let ghost list = incoming@[next as int]@[b as int]@;
                incoming[next as usize][b].push(i as u32);
                proof {
                    assert forall|t: int, c: int, x: u32| 0 <= t < n && 0 <= c < 256 implies (
                    #[trigger] incoming@[t]@[c]@.contains(x) <==> ((x as int) < i || (x as int == i
                        && c < b + 1)) && dfa.states@[x as int].transitions@[c] == t) by {
                        if t == next && c == b {
                            assert(incoming@[t]@[c]@ == list.push(i as u32));
                            assert(before[t]@[c]@.contains(x) <==> ((x as int) < i || (x as int == i
                                && c < b)) && dfa.states@[x as int].transitions@[c] == t);
                            if list.contains(x) {
                                let j = choose|j: int| 0 <= j < list.len() && list[j] == x;
                                assert(list.push(i as u32)[j] == x);
                            }
                            assert(list.push(i as u32)[list.len() as int] == i as u32);
                        } else {
                            assert(incoming@[t]@[c] == before[t]@[c]);
                            assert(before[t]@[c]@.contains(x) <==> ((x as int) < i || (x as int == i
                                && c < b)) && dfa.states@[x as int].transitions@[c] == t);
                        }
                    }
                }
                b += 1;
            }
            i += 1;
        }
        incoming
    }

    /// The first partition: the accepting states and the others, the
    /// smaller block first, and the accepting states first if both are of
    /// one size.
    pub fn initial_partitions(dfa: &DFA) -> (sets: Vec<StateSet>)
        requires
            dfa.wf(),
            dfa.has_match(),
        ensures
            sets@.len() == 2,
            sets@[0]@.len() <= sets@[1]@.len(),
            sets@[0]@.len() == sets@[1]@.len() ==> dfa.states@[sets@[0]@[0] as int].is_match,
            partition_ok(
                sets@,
                initial_classes(*dfa, dfa.states@[sets@[0]@[0] as int].is_match),
                dfa.len(),
            ),
    {
        let mut is_match = StateSet::empty();
        let mut no_match = StateSet::empty();
        let n = dfa.states.len();
        let mut i: usize = 0;
        while i < n
            invariant
                i <= n,
                n == dfa.len(),
                n <= u32::MAX,
                is_match.is_canonical(),
                no_match.is_canonical(),
                forall|k: int| 0 <= k < is_match@.len() ==> (#[trigger] is_match@[k] as int) < i
                    && dfa.states@[is_match@[k] as int].is_match,
                forall|k: int| 0 <= k < no_match@.len() ==> (#[trigger] no_match@[k] as int) < i
                    && !dfa.states@[no_match@[k] as int].is_match,
                forall|q: int| 0 <= q < i ==> (#[trigger] dfa.states@[q]).is_match ==> is_match@.contains(q as u32),
                forall|q: int| 0 <= q < i ==> !(#[trigger] dfa.states@[q]).is_match ==> no_match@.contains(q as u32),
            decreases n - i,
        {
            let id = i as u32;
            let ghost m0 = is_match@;
            let ghost n0 = no_match@;
            if dfa.states[i].is_match {
                is_match.add(id);
                proof {
                    assert forall|q: int| 0 <= q < i + 1 && (#[trigger] dfa.states@[q]).is_match implies is_match@.contains(q as u32) by {
                        if q < i {
                            let k = choose|k: int| 0 <= k < m0.len() && m0[k] == q as u32;
                            assert(is_match@[k] == q as u32);
                        } else {
                            assert(is_match@[m0.len() as int] == q as u32);
                        }
                    }
                }
            } else {
                no_match.add(id);
                proof {
                    assert forall|q: int| 0 <= q < i + 1 && !(#[trigger] dfa.states@[q]).is_match implies no_match@.contains(q as u32) by {
                        if q < i {
                            let k = choose|k: int| 0 <= k < n0.len() && n0[k] == q as u32;
                            assert(no_match@[k] == q as u32);
                        } else {
                            assert(no_match@[n0.len() as int] == q as u32);
                        }
                    }
                }
            }
            i += 1;
        }
        proof {
            let q = choose|q: int| 0 <= q < dfa.len() && (#[trigger] dfa.states@[q]).is_match;
            assert(is_match@.contains(q as u32));
            assert(!dfa.states@[0].is_match);
            assert(no_match@.contains(0u32));
        }
        let mut sets: Vec<StateSet> = Vec::new();
        let ghost match_first = no_match@.len() >= is_match@.len();
        if no_match.len() < is_match.len() {
            sets.push(no_match);
            sets.push(is_match);
        } else {
            sets.push(is_match);
            sets.push(no_match);
        }
        proof {
            let cls = initial_classes(*dfa, match_first);
            assert(dfa.states@[sets@[0]@[0] as int].is_match == match_first);
            assert forall|q: int| 0 <= q < n implies 0 <= #[trigger] cls[q] < sets@.len()
                && sets@[cls[q]]@.contains(q as u32) by {
                assert(dfa.states@[q].is_match ==> is_match@.contains(q as u32));
                assert(!dfa.states@[q].is_match ==> no_match@.contains(q as u32));
            }
            assert forall|i: int, k: int| 0 <= i < sets@.len() && 0 <= k < sets@[i]@.len() implies (
            #[trigger] sets@[i]@[k] as int) < n && cls[sets@[i]@[k] as int] == i by {}
        }
        sets
    }

    /// Prepares the minimisation of `dfa`, which must have an accepting
    /// state.
    pub fn new(dfa: DFA) -> (m: Minimizer)
        requires
            dfa.wf(),
            dfa.has_match(),
        ensures
            m.inv(),
            m.indexed(),
            m.dfa() == dfa,
    {
        let in_transitions = Minimizer::incoming_transitions(&dfa);
        let partitions = Minimizer::initial_partitions(&dfa);
        let match_first = dfa.states[partitions[0].first() as usize].is_match;
        let seed = if match_first {
            partitions[0].deep_clone()
        } else {
            partitions[1].deep_clone()
        };
        let ghost cls = initial_classes(dfa, match_first);
        let ghost n = dfa.len();
        let mut waiting: Vec<StateSet> = Vec::new();
        waiting.push(seed);
        proof {
            let none = Seq::<u32>::empty();
            let mi = if match_first { 0int } else { 1int };
            assert(partitions@[0]@.len() > 0);
            assert forall|q: int| 0 <= q < n implies (seed@.contains(q as u32)
                <==> #[trigger] dfa.states@[q].is_match) by {
                assert(partitions@[cls[q]]@.contains(q as u32));
                if seed@.contains(q as u32) {
                    let k = choose|k: int| 0 <= k < seed@.len() && seed@[k] == q as u32;
                    assert(cls[partitions@[mi]@[k] as int] == mi);
                }
            }
            assert forall|p: int, q: int|
                #![trigger cls[p], cls[q]]
                0 <= p < n && 0 <= q < n && cls[p] != cls[q] implies dfa.distinguishable(p, q) by {
                let e = Seq::<u8>::empty();
                assert(dfa.run(p, e) == p && dfa.run(q, e) == q);
                assert(dfa.accepts_from(p, e) != dfa.accepts_from(q, e));
            }
            assert forall|w: int, k: int| 0 <= w < waiting@.len() && 0 <= k < waiting@[w]@.len() implies (
            #[trigger] waiting@[w]@[k] as int) < n by {
                assert((partitions@[mi]@[k] as int) < n);
            }
            assert forall|p: int, q: int, b: u8|
                0 <= p < n && 0 <= q < n && #[trigger] violates(dfa, cls, p, q, b) implies covered(
                dfa,
                waiting@,
                none,
                p,
                q,
                b,
            ) by {
                assert((dfa.states@[p].transitions@[b as int] as int) < n);
                assert((dfa.states@[q].transitions@[b as int] as int) < n);
                assert(separates(waiting@[0]@, dfa.step(p, b), dfa.step(q, b)));
            }
            lemma_blocks_bounded(partitions@, cls, n);
        }
        Minimizer { dfa, in_transitions, partitions, waiting, classes: Ghost(cls) }
    }

    /// Collects in `incoming` the states that byte `b` leads into `set`, in
    /// increasing order.
    pub fn find_incoming_to(&self, b: u8, set: &StateSet, incoming: &mut StateSet)
        requires
            self.indexed(),
            forall|k: int| 0 <= k < set@.len() ==> (#[trigger] set@[k] as int) < self.dfa().len(),
        ensures
            final(incoming).is_canonical(),
            incoming_of(self.dfa(), set@, b, final(incoming)@),
    {
        incoming.clear();
        let mut i: usize = 0;
        while i < set.len()
            invariant
                i <= set@.len(),
                self.dfa.wf(),
                index_ok(self.dfa, self.in_transitions@),
                forall|k: int| 0 <= k < set@.len() ==> (#[trigger] set@[k] as int) < self.dfa.len(),
                forall|x: u32|
                    incoming@.contains(x) <==> (x as int) < self.dfa.len() && set@.take(
                        i as int,
                    ).contains(self.dfa.states@[x as int].transitions@[b as int]),
            decreases set@.len() - i,
        {
            let id = set.get(i);
            let ghost before = incoming@;
            let ghost list = self.in_transitions@[id as int]@[b as int]@;
            assert((set@[i as int] as int) < self.dfa.len());
            add_all(incoming, &self.in_transitions[id as usize][b as usize]);
            proof {
                let done = set@.take(i as int);
                let next = set@.take(i + 1);
                assert(next =~= done.push(id));
                assert forall|x: u32|
                    incoming@.contains(x) <==> (x as int) < self.dfa.len() && next.contains(
                        self.dfa.states@[x as int].transitions@[b as int],
                    ) by {
                    let t = self.dfa.states@[x as int].transitions@[b as int];
                    assert(list.contains(x) <==> (x as int) < self.dfa.len() && t == id);
                    if before.contains(x) {
                        let j = choose|j: int| 0 <= j < before.len() && before[j] == x;
                        assert(incoming@[j] == x);
                        let d = choose|d: int| 0 <= d < done.len() && done[d] == t;
                        assert(next[d] == t);
                    }
                    if list.contains(x) {
                        let j = choose|j: int| 0 <= j < list.len() && list[j] == x;
                        assert(incoming@[before.len() + j] == x);
                        assert(next[i as int] == t);
                    }
                    if incoming@.contains(x) {
                        let j = choose|j: int| 0 <= j < incoming@.len() && incoming@[j] == x;
                        if j < before.len() {
                            assert(before[j] == x);
                        } else {
                            assert(list[j - before.len()] == x);
                        }
                    }
                    if (x as int) < self.dfa.len() && next.contains(t) {
                        let d = choose|d: int| 0 <= d < next.len() && next[d] == t;
                        if d < i {
                            assert(done[d] == t);
                        }
                    }
                }
            }
            i += 1;
        }
        assert(set@.take(i as int) =~= set@);
        let ghost collected = incoming@;
        incoming.canonicalize();
        proof {
            assert forall|x: u32|
                incoming@.contains(x) <==> (x as int) < self.dfa.len() && set@.contains(
                    self.dfa.step(x as int, b) as u32,
                ) by {
                if incoming@.contains(x) {
                    assert(collected.contains(x));
                }
                if (x as int) < self.dfa.len() && set@.contains(self.dfa.step(x as int, b) as u32) {
                    assert(collected.contains(x));
                }
            }
        }
    }
}

impl Minimizer {
    /// Splits block `p` into its states inside `incoming` and those outside
    /// it, if there are both, and makes the work list announce the split.
    fn split_block(
        &mut self,
        p: usize,
        incoming: &StateSet,
        Ghost(cur): Ghost<Seq<u32>>,
        Ghost(k): Ghost<int>,
        Ghost(len0): Ghost<int>,
    )
        requires
            old(self).base(cur, k),
            0 <= k < 256,
            p < len0 <= old(self).partitions@.len(),
            incoming.is_canonical(),
            incoming_of(old(self).dfa, cur, k as u8, incoming@),
            uniform(old(self).classes@, incoming@, p as int, len0, old(self).dfa.len()),
        ensures
            final(self).base(cur, k),
            final(self).dfa == old(self).dfa,
            final(self).in_transitions == old(self).in_transitions,
            uniform(final(self).classes@, incoming@, p + 1, len0, old(self).dfa.len()),
            (final(self).partitions@.len() == old(self).partitions@.len() && final(self).waiting@.len() == old(self).waiting@.len()) || final(self).partitions@.len() == old(self).partitions@.len() + 1,
    {
        let ghost n = self.dfa.len();
        let ghost parts = self.partitions@;
        let ghost cls = self.classes@;
        let ghost waiting = self.waiting@;
        let ghost block = parts[p as int]@;
        let ghost fresh = parts.len() as int;
        let x = self.partitions[p].intersection(incoming);
        if x.is_empty() {
            proof {
                assert forall|q1: int, q2: int|
                    #![trigger cls[q1], cls[q2]]
                    0 <= q1 < n && 0 <= q2 < n && cls[q1] == cls[q2] && (cls[q1] < p + 1 || cls[q1]
                        >= len0) implies !separates(incoming@, q1, q2) by {
                    if cls[q1] == p {
                        assert(parts[cls[q1]]@.contains(q1 as u32));
                        assert(parts[cls[q2]]@.contains(q2 as u32));
                        assert(!x@.contains(q1 as u32)) by {
                            if x@.contains(q1 as u32) {
                                let j = choose|j: int| 0 <= j < x@.len() && x@[j] == q1 as u32;
                            }
                        }
                        assert(!x@.contains(q2 as u32)) by {
                            if x@.contains(q2 as u32) {
                                let j = choose|j: int| 0 <= j < x@.len() && x@[j] == q2 as u32;
                            }
                        }
                    }
                }
            }
            return ;
        }
        let y = self.partitions[p].subtract(incoming);
        if y.is_empty() {
            proof {
                assert forall|q1: int, q2: int|
                    #![trigger cls[q1], cls[q2]]
                    0 <= q1 < n && 0 <= q2 < n && cls[q1] == cls[q2] && (cls[q1] < p + 1 || cls[q1]
                        >= len0) implies !separates(incoming@, q1, q2) by {
                    if cls[q1] == p {
                        assert(parts[cls[q1]]@.contains(q1 as u32));
                        assert(parts[cls[q2]]@.contains(q2 as u32));
                        assert(!y@.contains(q1 as u32)) by {
                            if y@.contains(q1 as u32) {
                                let j = choose|j: int| 0 <= j < y@.len() && y@[j] == q1 as u32;
                            }
                        }
                        assert(!y@.contains(q2 as u32)) by {
                            if y@.contains(q2 as u32) {
                                let j = choose|j: int| 0 <= j < y@.len() && y@[j] == q2 as u32;
                            }
                        }
                    }
                }
            }
            return ;
        }
        let ghost cls2 = split_classes(cls, p as int, fresh, x@);
        proof {
            lemma_halves(parts, cls, n, p as int, x@, y@);
            lemma_split_partition(parts, cls, n, p as int, x, y);
            lemma_refines_keeps(self.dfa, cls2, cls, cur, k);
            lemma_split_justified(self.dfa, cls, cur, k as u8, incoming@, p as int, fresh, x@, y@);
            lemma_split_saturated(cls, n, p as int, fresh, x@, y@);
            assert forall|w: int| 0 <= w < waiting.len() implies saturated(
                (#[trigger] waiting[w])@,
                cls2,
                n,
            ) by {
                lemma_refines_keeps(self.dfa, cls2, cls, waiting[w]@, k);
            }
            assert forall|j: int| 0 <= j < x@.len() implies (#[trigger] x@[j] as int) < n by {
                assert(block.contains(x@[j]));
                let i = choose|i: int| 0 <= i < block.len() && block[i] == x@[j];
                assert((parts[p as int]@[i] as int) < n);
            }
            assert forall|j: int| 0 <= j < y@.len() implies (#[trigger] y@[j] as int) < n by {
                assert(block.contains(y@[j]));
                let i = choose|i: int| 0 <= i < block.len() && block[i] == y@[j];
                assert((parts[p as int]@[i] as int) < n);
            }
        }
        let at = position(&self.waiting, &self.partitions[p]);
        match at {
            Some(i) => {
                let x2 = x.deep_clone();
                let y2 = y.deep_clone();
                proof {
                    lemma_split_pending_queued(
                        self.dfa,
                        cls,
                        waiting,
                        cur,
                        p as int,
                        fresh,
                        x2,
                        y2,
                        i as int,
                    );
                }
                self.waiting[i] = x2;
                self.waiting.push(y2);
                assert(self.waiting@ == waiting.update(i as int, x2).push(y2));
            },
            None => {
                let half = if x.len() <= y.len() {
                    x.deep_clone()
                } else {
                    y.deep_clone()
                };
                proof {
                    lemma_split_pending_new(
                        self.dfa,
                        cls,
                        waiting,
                        cur,
                        p as int,
                        fresh,
                        x@,
                        y@,
                        half,
                    );
                }
                self.waiting.push(half);
            },
        }
        self.partitions[p] = x;
        self.partitions.push(y);
        self.classes = Ghost(cls2);
        proof {
            assert(self.partitions@ == parts.update(p as int, x).push(y));
            lemma_blocks_bounded(self.partitions@, cls2, n);
            assert(split_classes(cls, p as int, fresh, x@) == cls2);
            assert forall|w: int| 0 <= w < self.waiting@.len() implies saturated(
                (#[trigger] self.waiting@[w])@,
                cls2,
                n,
            ) by {
                if w < waiting.len() && self.waiting@[w] == waiting[w] {
                    assert(saturated(waiting[w]@, cls2, n));
                }
            }
            assert forall|w: int, j: int|
                0 <= w < self.waiting@.len() && 0 <= j < self.waiting@[w]@.len() implies (
            #[trigger] self.waiting@[w]@[j] as int) < n by {
                if w < waiting.len() && self.waiting@[w] == waiting[w] {
                    assert((waiting[w]@[j] as int) < n);
                }
            }
            assert forall|q1: int, q2: int|
                #![trigger cls2[q1], cls2[q2]]
                0 <= q1 < n && 0 <= q2 < n && cls2[q1] == cls2[q2] && (cls2[q1] < p + 1 || cls2[q1]
                    >= len0) implies !separates(incoming@, q1, q2) by {
                assert(0 <= cls[q1] < parts.len() && 0 <= cls[q2] < parts.len());
                assert(cls[q1] == p <==> x@.contains(q1 as u32) || y@.contains(q1 as u32));
                assert(cls[q2] == p <==> x@.contains(q2 as u32) || y@.contains(q2 as u32));
                if cls[q1] != p {
                    assert(cls[q1] == cls[q2]);
                }
            }
        }
    }

    /// Splits blocks until the work list is empty.
    fn refine(&mut self)
        requires
            old(self).inv(),
        ensures
            final(self).inv(),
            final(self).dfa == old(self).dfa,
            congruence(final(self).dfa, final(self).classes@),
    {
        let mut incoming = StateSet::empty();
        while self.waiting.len() > 0
            invariant
                self.base(Seq::<u32>::empty(), 0),
                self.dfa == old(self).dfa,
            decreases self.dfa.len() - self.partitions@.len(), self.waiting@.len(),
        {
            let ghost blocks0 = self.partitions@.len();
            let ghost waiting0 = self.waiting@;
            proof {
                lemma_taken(self.dfa, self.classes@, self.waiting@);
                assert(saturated(waiting0.last()@, self.classes@, self.dfa.len()));
            }
            let cur = self.waiting.pop().unwrap();
            proof {
                assert(self.waiting@ == waiting0.drop_last());
                assert(cur == waiting0.last());
                assert forall|w: int| 0 <= w < self.waiting@.len() implies saturated(
                    (#[trigger] self.waiting@[w])@,
                    self.classes@,
                    self.dfa.len(),
                ) by {
                    assert(self.waiting@[w] == waiting0[w]);
                }
                assert forall|w: int, j: int|
                    0 <= w < self.waiting@.len() && 0 <= j < self.waiting@[w]@.len() implies (
                #[trigger] self.waiting@[w]@[j] as int) < self.dfa.len() by {
                    assert((waiting0[w]@[j] as int) < self.dfa.len());
                }
                assert forall|j: int| 0 <= j < cur@.len() implies (#[trigger] cur@[j] as int)
                    < self.dfa.len() by {
                    assert((waiting0[waiting0.len() - 1]@[j] as int) < self.dfa.len());
                }
            }
            let mut b: usize = 0;
            while b < ALPHABET_SIZE
                invariant
                    b <= ALPHABET_SIZE,
                    self.base(cur@, b as int),
                    self.dfa == old(self).dfa,
                    forall|j: int| 0 <= j < cur@.len() ==> (#[trigger] cur@[j] as int)
                        < self.dfa.len(),
                    (self.partitions@.len() == blocks0 && self.waiting@.len() == waiting0.len() - 1)
                        || self.partitions@.len() > blocks0,
                decreases ALPHABET_SIZE - b,
            {
                self.find_incoming_to(b as u8, &cur, &mut incoming);
                let len0 = self.partitions.len();
                let mut p: usize = 0;
                while p < len0
                    invariant
                        p <= len0 <= self.partitions@.len(),
                        b < ALPHABET_SIZE,
                        self.base(cur@, b as int),
                        self.dfa == old(self).dfa,
                        incoming.is_canonical(),
                        incoming_of(self.dfa, cur@, b as u8, incoming@),
                        uniform(self.classes@, incoming@, p as int, len0 as int, self.dfa.len()),
                        (self.partitions@.len() == blocks0 && self.waiting@.len() == waiting0.len()
                            - 1) || self.partitions@.len() > blocks0,
                    decreases len0 - p,
                {
                    self.split_block(
                        p,
                        &incoming,
                        Ghost(cur@),
                        Ghost(b as int),
                        Ghost(len0 as int),
                    );
                    p += 1;
                }
                proof {
                    let cls = self.classes@;
                    assert forall|q1: int, q2: int|
                        #![trigger cls[q1], cls[q2]]
                        0 <= q1 < self.dfa.len() && 0 <= q2 < self.dfa.len() && cls[q1] == cls[q2]
                        implies !separates(incoming@, q1, q2) by {
                        assert(cls[q1] < len0 || cls[q1] >= len0);
                    }
                    lemma_uniform_stable(self.dfa, cls, cur@, b as int, incoming@);
                }
                b += 1;
            }
            proof {
                lemma_processed(self.dfa, self.classes@, self.waiting@, cur@);
            }
        }
        proof {
            lemma_drained(self.dfa, self.classes@, self.waiting@);
        }
    }

    /// Makes every block one state: the least state of each block stands
    /// for it, the representatives are numbered in increasing order, and
    /// every transition is led to the number of its target's
    /// representative.
    fn rebuild(self) -> (min: DFA)
        requires
            self.inv(),
            congruence(self.dfa, self.classes@),
        ensures
            min.wf(),
            min.len() <= self.dfa.len(),
            exists|f: Seq<int>| #[trigger]
                quotient_of(min, self.dfa, f) && merges_blocks(f, self.classes@) && keeps_order(f),
            (forall|p: int, q: int|
                #![trigger self.classes@[p], self.classes@[q]]
                0 <= p < self.dfa.len() && 0 <= q < self.dfa.len() && self.classes@[p]
                    == self.classes@[q] ==> p == q) ==> min.len() == self.dfa.len(),
    {
        let ghost old_dfa = self.dfa;
        let ghost cls = self.classes@;
        let ghost parts = self.partitions@;
        let n = self.dfa.states.len();
        let reps = representatives(&self.partitions, n, Ghost(cls));
        let (ids, count) = number_representatives(&reps);
        let mut dfa = self.dfa;
        proof {
            assert forall|q: int| 0 <= q < n implies (#[trigger] reps@[q] as int) < n
                && reps@[q] as int <= q && cls[reps@[q] as int] == cls[q] && is_representative(
                reps@,
                reps@[q] as int,
            ) by {
                let block = parts[cls[q]]@;
                assert(block.contains(q as u32));
                let j = choose|j: int| 0 <= j < block.len() && block[j] == q as u32;
                assert((parts[cls[q]]@[0] as int) < n && cls[parts[cls[q]]@[0] as int] == cls[q]);
                assert(parts[cls[q]].is_canonical());
                let r = reps@[q] as int;
                assert(reps@[r] == parts[cls[r]]@[0]);
            }
        }
        let mut id: usize = 0;
        while id < n
            invariant
                id <= n,
                n == old_dfa.len(),
                old_dfa.wf(),
                reps@.len() == n,
                ids@.len() == n,
                dfa.states@.len() == n,
                dfa.start == old_dfa.start,
                numbering_ok(reps@, ids@, count as int, n as int),
                forall|q: int| 0 <= q < n ==> (#[trigger] reps@[q] as int) < n,
                forall|j: int| id <= j < n ==> #[trigger] dfa.states@[j] == old_dfa.states@[j],
                forall|r: int|
                    0 <= r < id && is_representative(reps@, r) ==> rewritten(
                        dfa.states@[#[trigger] ids@[r] as int],
                        old_dfa.states@[r],
                        reps@,
                        ids@,
                    ),
            decreases n - id,
        {
            if reps[id] as usize == id {
                let ghost before = dfa.states@;
                let mut transitions: Vec<u32> = Vec::new();
                let mut b: usize = 0;
                while b < ALPHABET_SIZE
                    invariant
                        b <= ALPHABET_SIZE,
                        id < n,
                        n == old_dfa.len(),
                        old_dfa.wf(),
                        reps@.len() == n,
                        ids@.len() == n,
                        dfa.states@.len() == n,
                        dfa.states@[id as int] == old_dfa.states@[id as int],
                        forall|q: int| 0 <= q < n ==> (#[trigger] reps@[q] as int) < n,
                        transitions@.len() == b,
                        forall|c: int|
                            0 <= c < b ==> #[trigger] transitions@[c]
                                == ids@[reps@[old_dfa.states@[id as int].transitions@[c] as int] as int],
                    decreases ALPHABET_SIZE - b,
                {
                    assert(old_dfa.states@[id as int].transitions@.len() == ALPHABET_SIZE);
                    let next = dfa.states[id].transitions[b];
                    assert((old_dfa.states@[id as int].transitions@[b as int] as int) < n);
                    transitions.push(ids[reps[next as usize] as usize]);
                    b += 1;
                }
                let is_match = dfa.states[id].is_match;
                let target = ids[id] as usize;
                assert(is_representative(reps@, id as int));
                assert((ids@[id as int] as int) < count && ids@[id as int] as int <= id);
                let state = DFAState { is_match, transitions };
                dfa.states[target] = state;
                proof {
                    assert forall|r: int|
                        0 <= r < id + 1 && is_representative(reps@, r) implies rewritten(
                        dfa.states@[#[trigger] ids@[r] as int],
                        old_dfa.states@[r],
                        reps@,
                        ids@,
                    ) by {
                        if r < id {
                            assert(ids@[r] < ids@[id as int]);
                            assert(dfa.states@[ids@[r] as int] == before[ids@[r] as int]);
                        }
                    }
                }
            }
            id += 1;
        }
        dfa.states.truncate(count);
        let start = dfa.start;
        assert((start as int) < n);
        dfa.start = ids[reps[start as usize] as usize];
        proof {
            let f = Seq::new(n as nat, |q: int| ids@[reps@[q] as int] as int);
            assert(is_representative(reps@, 0));
            assert(ids@[0] == 0);
            assert(count >= 1);
            assert forall|q: int| 0 <= q < n implies 0 <= #[trigger] f[q] < dfa.len() && rewritten(
                dfa.states@[f[q]],
                old_dfa.states@[reps@[q] as int],
                reps@,
                ids@,
            ) by {
                let r = reps@[q] as int;
                assert(is_representative(reps@, r));
                assert((ids@[r] as int) < count);
            }
            assert forall|q: int| 0 <= q < n implies dfa.states@[#[trigger] f[q]].is_match
                == old_dfa.states@[q].is_match by {
                let r = reps@[q] as int;
                assert(cls[r] == cls[q]);
            }
            assert forall|q: int, b: u8| 0 <= q < n implies dfa.step(f[q], b) == f[#[trigger] old_dfa.step(
                q,
                b,
            )] by {
                let r = reps@[q] as int;
                assert(cls[r] == cls[q]);
                let s = old_dfa.step(r, b);
                let t = old_dfa.step(q, b);
                assert((old_dfa.states@[r].transitions@[b as int] as int) < n);
                assert((old_dfa.states@[q].transitions@[b as int] as int) < n);
                assert(cls[s] == cls[t]);
                assert(reps@[s] == parts[cls[s]]@[0]);
                assert(reps@[t] == parts[cls[t]]@[0]);
                assert(dfa.states@[f[q]].transitions@[b as int] == ids@[reps@[s] as int]);
            }
            assert forall|k: int| 0 <= k < dfa.len() implies #[trigger] has_preimage(f, k) by {
                assert(numbered(reps@, ids@, n as int, k));
                let r = choose|r: int|
                    0 <= r < n && is_representative(reps@, r) && #[trigger] ids@[r] as int == k;
                assert(f[r] == k);
            }
            assert(quotient_of(dfa, old_dfa, f));
            assert forall|p: int, q: int|
                #![trigger f[p], f[q]]
                0 <= p < f.len() && 0 <= q < f.len() && cls[p] == cls[q] implies f[p] == f[q] by {
                assert(reps@[p] == parts[cls[p]]@[0]);
                assert(reps@[q] == parts[cls[q]]@[0]);
            }
            assert(merges_blocks(f, cls));
            assert forall|p: int| 0 <= p < n && is_least(f, p) implies is_representative(
                reps@,
                p,
            ) by {
                let r = reps@[p] as int;
                assert(cls[r] == cls[p]);
                assert(f[r] == f[p]);
            }
            assert forall|p: int, q: int|
                #![trigger f[p], f[q]]
                0 <= p < q < f.len() && is_least(f, p) && is_least(f, q) implies f[p] < f[q] by {
                assert(is_representative(reps@, p) && is_representative(reps@, q));
                assert(ids@[p] < ids@[q]);
            }
            assert(keeps_order(f));
            assert forall|q: int, b: int| 0 <= q < dfa.len() && 0 <= b < 256 implies (
            #[trigger] dfa.states@[q].transitions@[b] as int) < dfa.len() by {
                assert(has_preimage(f, q));
                let p = choose|p: int| 0 <= p < f.len() && #[trigger] f[p] == q;
                assert(dfa.step(f[p], b as u8) == f[old_dfa.step(p, b as u8)]);
                assert((old_dfa.states@[p].transitions@[b] as int) < n);
            }
            assert forall|q: int| 0 <= q < dfa.len() implies (#[trigger] dfa.states@[q]).transitions@.len()
                == ALPHABET_SIZE by {
                assert(has_preimage(f, q));
                let p = choose|p: int| 0 <= p < f.len() && #[trigger] f[p] == q;
            }
            assert(f[0] == 0);
            assert forall|b: int| 0 <= b < 256 implies #[trigger] dfa.states@[0].transitions@[b]
                == DFA_DEAD by {
                assert(dfa.step(f[0], b as u8) == f[old_dfa.step(0, b as u8)]);
                assert(old_dfa.states@[0].transitions@[b] == DFA_DEAD);
            }
            if forall|p: int, q: int|
                #![trigger cls[p], cls[q]]
                0 <= p < n && 0 <= q < n && cls[p] == cls[q] ==> p == q {
                assert forall|j: int| 0 <= j < n implies #[trigger] is_representative(reps@, j) by {
                    let r = reps@[j] as int;
                    assert(cls[r] == cls[j]);
                }
            }
        }
        dfa
    }

    /// Minimises the automaton.
    ///
    /// The result accepts exactly the inputs that the given automaton
    /// accepts, has no more states, and no two of its states accept the
    /// same inputs. States of the given automaton that accept the same
    /// inputs have become one state, and these states stand in the order
    /// of the least states that they are made of. Where no two states of
    /// the given automaton accept the same inputs, the result has as many
    /// states. Where every state but the dead state is reached from the
    /// start state, that holds of the result too.
    pub fn run(self) -> (min: DFA)
        requires
            self.inv(),
        ensures
            min.wf(),
            min.len() <= self.dfa().len(),
            equivalent(self.dfa(), min),
            is_minimal(min),
            collapses(min, self.dfa()),
            is_minimal(self.dfa()) ==> min.len() == self.dfa().len(),
            self.dfa().all_reached() ==> min.all_reached(),
    {
        let ghost dfa = self.dfa;
        let mut this = self;
        this.refine();
        let ghost cls = this.classes@;
        let min = this.rebuild();
        proof {
            let f = choose|f: Seq<int>| #[trigger]
                quotient_of(min, dfa, f) && merges_blocks(f, cls) && keeps_order(f);
            lemma_quotient_equivalent(min, dfa, f);
            lemma_quotient_minimal(min, dfa, f, cls);
            assert forall|p: int, q: int|
                #![trigger f[p], f[q]]
                0 <= p < dfa.len() && 0 <= q < dfa.len() && !dfa.distinguishable(
                    p,
                    q,
                ) implies f[p] == f[q] by {
                assert(cls[p] == cls[q]);
            }
            assert(quotient_of(min, dfa, f));
            if dfa.all_reached() {
                assert forall|k: int| 1 <= k < min.len() implies #[trigger] min.reaches(k) by {
                    assert(has_preimage(f, k));
                    let p = choose|p: int| 0 <= p < f.len() && #[trigger] f[p] == k;
                    if p == 0 {
                        assert(has_preimage(f, 0));
                        let p0 = choose|p0: int| 0 <= p0 < f.len() && #[trigger] f[p0] == 0;
                        assert forall|text: Seq<u8>| dfa.accepts_from(0, text) == dfa.accepts_from(
                            p0,
                            text,
                        ) by {
                            dfa.lemma_dead_absorbs(text);
                            min.lemma_dead_absorbs(text);
                            lemma_quotient_runs(min, dfa, f, p0, text);
                        }
                        assert(!dfa.distinguishable(0, p0));
                        assert(f[0] == f[p0]);
                    }
                    assert(dfa.reaches(p));
                    let input = choose|input: Seq<u8>| dfa.run(dfa.start as int, input) == p;
                    lemma_quotient_runs(min, dfa, f, dfa.start as int, input);
                    assert(min.run(min.start as int, input) == k);
                }
            }
            if is_minimal(dfa) {
                assert forall|p: int, q: int|
                    #![trigger cls[p], cls[q]]
                    0 <= p < dfa.len() && 0 <= q < dfa.len() && cls[p] == cls[q] implies p == q by {
                    if p != q {
                        assert(dfa.distinguishable(p, q));
                        let input = choose|input: Seq<u8>|
                            dfa.accepts_from(p, input) != dfa.accepts_from(q, input);
                        lemma_congruence_runs(dfa, cls, p, q, input);
                    }
                }
            }
        }
        min
    }
}

} // verus!
