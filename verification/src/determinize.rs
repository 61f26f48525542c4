//! Subset construction: from a nondeterministic automaton to a
//! deterministic one.
//!
//! Every state of the result stands for a set of states of the given
//! automaton, kept in canonical form: the byte-reading states of the set in
//! increasing order, and whether the set holds a match state. Sets with the
//! same canonical form are one state.

use vstd::prelude::*;
use crate::dfa::{DFA, DFAState, ALPHABET_SIZE, DFA_DEAD};
use crate::nfa::{NFA, NFAState, StateModel, table_wf};
use crate::nfa_lang::{
    after,
    closed,
    closure,
    eps_edge,
    eps_path,
    eps_reach,
    has_match,
    is_key,
    is_range,
    lemma_closure_closed,
    lemma_closure_insert,
    lemma_closure_least,
    lemma_key_unique,
    lemma_reach_edge,
    lemma_reach_self,
    lemma_step_by_key,
    nfa_accepts,
    reads,
    step_set,
};
use crate::sparse_set::SparseSet;
use crate::state_set::{strictly_increasing, StateSet};

verus! {

/// The number of buckets of the table that finds a state by its canonical
/// set.
pub const CACHE_BUCKETS: usize = 4093;

/// The set of automaton states that a deterministic state stands for, in
/// canonical form.
pub struct DFABuilderState {
    pub is_match: bool,
    pub nfa_states: StateSet,
}

/// The bucket of a canonical set.
pub open spec fn hash_of(is_match: bool, ids: Seq<u32>) -> int
    decreases ids.len(),
{
    if ids.len() == 0 {
        if is_match {
            1
        } else {
            0
        }
    } else {
        (hash_of(is_match, ids.drop_last()) * 31 + ids.last()) % (CACHE_BUCKETS as int)
    }
}

impl DFABuilderState {
    /// The empty set without a match state, which the dead state stands
    /// for.
    pub fn dead() -> (state: DFABuilderState)
        ensures
            !state.is_match,
            state.nfa_states@.len() == 0,
    {
        DFABuilderState { nfa_states: StateSet::empty(), is_match: false }
    }

    /// The canonical set as a mathematical value.
    pub open spec fn key(&self) -> (bool, Seq<u32>) {
        (self.is_match, self.nfa_states@)
    }

    /// The bucket of this set.
    fn hash(&self) -> (h: usize)
        ensures
            h == hash_of(self.is_match, self.nfa_states@),
            h < CACHE_BUCKETS,
    {
        let mut h: u64 = if self.is_match {
            1
        } else {
            0
        };
        let mut i: usize = 0;
        while i < self.nfa_states.len()
            invariant
                i <= self.nfa_states@.len(),
                h < CACHE_BUCKETS,
                h == hash_of(self.is_match, self.nfa_states@.take(i as int)),
            decreases self.nfa_states@.len() - i,
        {
            let id = self.nfa_states.get(i);
            proof {
                let next = self.nfa_states@.take(i + 1);
                assert(next.drop_last() =~= self.nfa_states@.take(i as int));
                assert(next.last() == id);
            }
            h = (h * 31 + id as u64) % (CACHE_BUCKETS as u64);
            i += 1;
        }
        assert(self.nfa_states@.take(i as int) =~= self.nfa_states@);
        h as usize
    }

    /// Whether both are the same canonical set.
    fn same_as(&self, other: &DFABuilderState) -> (b: bool)
        ensures
            b == (self.key() == other.key()),
    {
        self.is_match == other.is_match && self.nfa_states.same_as(&other.nfa_states)
    }
}

/// The canonical forms of the sets of states that reading some input leads
/// to, and that of the empty set.
pub open spec fn subset_keys(t: Seq<StateModel>) -> Set<(bool, Seq<u32>)> {
    Set::new(
        |key: (bool, Seq<u32>)|
            key == (false, Seq::<u32>::empty()) || exists|input: Seq<u8>|
                is_key(t, after(t, input), key.0, key.1),
    )
}

/// Whether the deterministic automaton for `t` has no more states than
/// identifiers can name.
pub open spec fn fits(t: Seq<StateModel>) -> bool {
    subset_keys(t).finite() && subset_keys(t).len() <= u32::MAX
}

/// The start state of a deterministic automaton of `len` states that was
/// made from a table of states: the first state that was made behind the
/// dead state, and the dead state if no state was made.
pub open spec fn start_of(len: int) -> u32 {
    if len == 1 {
        DFA_DEAD
    } else {
        1
    }
}

/// Two to the power of `n`.
pub open spec fn two_to(n: nat) -> nat
    decreases n,
{
    if n == 0 {
        1
    } else {
        2 * two_to((n - 1) as nat)
    }
}

/// The canonical sets of states below `n`, with and without a match
/// state.
pub open spec fn keys_below(n: nat) -> Set<(bool, Seq<u32>)> {
    Set::new(
        |key: (bool, Seq<u32>)|
            strictly_increasing(key.1) && forall|i: int|
                0 <= i < key.1.len() ==> (#[trigger] key.1[i] as int) < n,
    )
}

/// There are no more than two to the power of `n + 1` canonical sets of
/// states below `n`.
pub proof fn lemma_keys_below(n: nat)
    ensures
        keys_below(n).finite(),
        keys_below(n).len() <= two_to(n + 1),
    decreases n,
{
    let none = Seq::<u32>::empty();
    if n == 0 {
        let both = set![(false, none), (true, none)];
        assert(keys_below(0).subset_of(both)) by {
            assert forall|key: (bool, Seq<u32>)| keys_below(0).contains(key) implies both.contains(
                key,
            ) by {
                if key.1.len() > 0 {
                    assert((key.1[0] as int) < 0);
                }
                assert(key.1 =~= none);
                if key.0 {
                    assert(key == (true, none));
                } else {
                    assert(key == (false, none));
                }
            }
        }
        assert(both.finite() && both.len() <= 2) by {
            assert(both =~= Set::<(bool, Seq<u32>)>::empty().insert((false, none)).insert(
                (true, none),
            ));
        }
        vstd::set_lib::lemma_len_subset(keys_below(0), both);
        reveal_with_fuel(two_to, 2);
    } else {
        let fewer = (n - 1) as nat;
        lemma_keys_below(fewer);
        let small = keys_below(fewer);
        let with = |key: (bool, Seq<u32>)| (key.0, key.1.push(fewer as u32));
        let more = small.map(with);
        vstd::set_lib::lemma_map_size_bound(small, more, with);
        vstd::set_lib::lemma_len_union(small, more);
        assert(keys_below(n).subset_of(small.union(more))) by {
            assert forall|key: (bool, Seq<u32>)| keys_below(n).contains(key) implies small.union(
                more,
            ).contains(key) by {
                let ids = key.1;
                if ids.len() > 0 && ids.last() as int == fewer {
                    let front = ids.drop_last();
                    assert forall|i: int| 0 <= i < front.len() implies (#[trigger] front[i] as int)
                        < fewer by {
                        assert(front[i] == ids[i]);
                        assert(ids[i] < ids[ids.len() - 1]);
                    }
                    assert(strictly_increasing(front)) by {
                        assert forall|i: int, j: int| 0 <= i < j < front.len() implies front[i]
                            < front[j] by {
                            assert(front[i] == ids[i] && front[j] == ids[j]);
                        }
                    }
                    assert(small.contains((key.0, front)));
                    assert(front.push(fewer as u32) =~= ids);
                    assert(with((key.0, front)) == key);
                    assert(more.contains(key));
                } else {
                    assert forall|i: int| 0 <= i < ids.len() implies (#[trigger] ids[i] as int)
                        < fewer by {
                        if i < ids.len() - 1 {
                            assert(ids[i] < ids[ids.len() - 1]);
                        }
                    }
                    assert(small.contains(key));
                }
            }
        }
        vstd::set_lib::lemma_len_subset(keys_below(n), small.union(more));
        assert(small.union(more).finite());
    }
}

/// The deterministic automaton of a table of no more than 30 states has
/// no more states than identifiers can name.
pub proof fn lemma_small_fits(t: Seq<StateModel>)
    requires
        t.len() <= 30,
    ensures
        fits(t),
{
    let n = t.len();
    lemma_keys_below(n);
    assert(subset_keys(t).subset_of(keys_below(n))) by {
        assert forall|key: (bool, Seq<u32>)| subset_keys(t).contains(key) implies keys_below(
            n,
        ).contains(key) by {
            if key != (false, Seq::<u32>::empty()) {
                let input = choose|input: Seq<u8>| is_key(t, after(t, input), key.0, key.1);
                assert forall|i: int| 0 <= i < key.1.len() implies (#[trigger] key.1[i] as int)
                    < n by {
                    assert(key.1.contains(key.1[i]));
                    assert(is_range(t, key.1[i]));
                }
            }
        }
    }
    vstd::set_lib::lemma_len_subset(subset_keys(t), keys_below(n));
    lemma_two_to_grows(n + 1, 31);
    lemma_two_to_31();
}

/// Two to the power of 31.
pub proof fn lemma_two_to_31()
    ensures
        two_to(31) == 2147483648,
{
    assert(two_to(8) == 256) by {
        reveal_with_fuel(two_to, 9);
    }
    assert(two_to(16) == 65536) by {
        reveal_with_fuel(two_to, 9);
    }
    assert(two_to(24) == 16777216) by {
        reveal_with_fuel(two_to, 9);
    }
    assert(two_to(31) == 2147483648) by {
        reveal_with_fuel(two_to, 8);
    }
}

/// Two to a power grows with the power.
pub proof fn lemma_two_to_grows(a: nat, b: nat)
    requires
        a <= b,
    ensures
        two_to(a) <= two_to(b),
    decreases b,
{
    if a < b {
        lemma_two_to_grows(a, (b - 1) as nat);
    }
}

/// A deterministic automaton that was made from a table of states and
/// accepts some input begins in state 1, behind the dead state.
pub proof fn lemma_start_is_one(dfa: DFA, input: Seq<u8>)
    requires
        dfa.wf(),
        dfa.start == start_of(dfa.len() as int),
        dfa.accepts(input),
    ensures
        dfa.start == 1,
        dfa.len() >= 2,
{
    if dfa.start == DFA_DEAD {
        dfa.lemma_dead_absorbs(input);
    }
}

/// The automata accept the same inputs.
pub open spec fn same_language(dfa: DFA, t: Seq<StateModel>) -> bool {
    forall|input: Seq<u8>| dfa.accepts(input) == nfa_accepts(t, input)
}

/// Nothing is reached from the empty set.
pub proof fn lemma_nothing_from_nothing(t: Seq<StateModel>, byte: u8)
    ensures
        closure(t, step_set(t, Seq::<u32>::empty().to_set(), byte)) =~= Set::<u32>::empty(),
        is_key(t, Set::<u32>::empty(), false, Seq::<u32>::empty()),
{
}

/// The state of a subset construction.
pub struct DFABuilder<'a> {
    /// The automaton that is made deterministic.
    nfa: &'a NFA,
    /// The deterministic automaton as far as it is built.
    dfa: DFA,
    /// For every deterministic state, the set that it stands for.
    builder_states: Vec<DFABuilderState>,
    /// The deterministic states by the bucket of their set.
    cache: Vec<Vec<u32>>,
}

impl<'a> DFABuilder<'a> {
    /// The table of the automaton that is made deterministic.
    pub closed spec fn table(&self) -> Seq<StateModel> {
        self.nfa@
    }

    /// The canonical set of the deterministic state `d`.
    pub closed spec fn key(&self, d: int) -> (bool, Seq<u32>) {
        self.builder_states@[d].key()
    }

    /// The set of state `d` is canonical, names byte-reading states only,
    /// and the state accepts just when the set holds a match state.
    pub closed spec fn state_ok(&self, d: int) -> bool {
        &&& self.builder_states@[d].nfa_states.is_canonical()
        &&& forall|k: int|
            0 <= k < self.key(d).1.len() ==> is_range(self.nfa@, #[trigger] self.key(d).1[k])
        &&& self.dfa.states@[d].is_match == self.key(d).0
    }

    /// Some input leads the given automaton to the set of state `d`.
    pub closed spec fn reachable(&self, d: int) -> bool {
        exists|input: Seq<u8>| is_key(self.nfa@, after(self.nfa@, input), self.key(d).0, self.key(d).1)
    }

    /// Byte `b` leads state `d` to the state of the set that `b` leads the
    /// set of `d` to.
    pub closed spec fn trans_ok(&self, d: int, b: u8) -> bool {
        let to = self.dfa.states@[d].transitions@[b as int] as int;
        is_key(
            self.nfa@,
            closure(self.nfa@, step_set(self.nfa@, self.key(d).1.to_set(), b)),
            self.key(to).0,
            self.key(to).1,
        )
    }

    /// Every byte leads state `d` where it should.
    pub closed spec fn compiled(&self, d: int) -> bool {
        forall|b: u8| self.trans_ok(d, b)
    }

    /// The representation invariant.
    pub closed spec fn wf(&self) -> bool {
        let n = self.dfa.len();
        &&& self.nfa.wf()
        &&& self.dfa.wf()
        &&& self.builder_states@.len() == n
        &&& forall|d: int| 0 <= d < n ==> self.state_ok(d)
        &&& self.key(0) == (false, Seq::<u32>::empty())
        &&& self.cache@.len() == CACHE_BUCKETS
        &&& forall|h: int, k: int|
            0 <= h < CACHE_BUCKETS && 0 <= k < self.cache@[h]@.len() ==> (
            #[trigger] self.cache@[h]@[k] as int) < n && hash_of(
                self.key(self.cache@[h]@[k] as int).0,
                self.key(self.cache@[h]@[k] as int).1,
            ) == h
        &&& forall|d: int|
            0 <= d < n ==> self.cache@[hash_of(self.key(d).0, self.key(d).1)]@.contains(d as u32)
        &&& forall|d1: int, d2: int|
            0 <= d1 < n && 0 <= d2 < n && d1 != d2 ==> self.key(d1) != self.key(d2)
        &&& forall|d: int| 1 <= d < n ==> self.reachable(d)
    }

    /// This builder has the states of `old` as its first states, unchanged.
    pub closed spec fn extends(&self, old: &DFABuilder<'a>) -> bool {
        &&& self.nfa == old.nfa
        &&& old.dfa.len() <= self.dfa.len()
        &&& self.dfa.start == old.dfa.start
        &&& forall|d: int|
            0 <= d < old.dfa.len() ==> self.dfa.states@[d] == old.dfa.states@[d] && self.key(d)
                == old.key(d)
    }

    /// What held of the transitions of an earlier builder holds of this
    /// one.
    proof fn lemma_extends_keeps(&self, old: &DFABuilder<'a>, d: int)
        requires
            old.wf(),
            self.extends(old),
            0 <= d < old.dfa.len(),
        ensures
            forall|b: u8| old.trans_ok(d, b) ==> self.trans_ok(d, b),
            old.compiled(d) ==> self.compiled(d),
            old.reachable(d) ==> self.reachable(d),
    {
        assert forall|b: u8| old.trans_ok(d, b) implies self.trans_ok(d, b) by {
            let to = old.dfa.states@[d].transitions@[b as int] as int;
            assert(to < old.dfa.len());
        }
    }

    /// A builder for `nfa` that has made the dead state only.
    pub fn new(nfa: &'a NFA) -> (builder: DFABuilder<'a>)
        requires
            nfa.wf(),
        ensures
            builder.wf(),
            builder.table() == nfa@,
            builder.is_new(),
    {
        let dead = DFABuilderState::dead();
        let mut cache: Vec<Vec<u32>> = Vec::new();
        let mut i: usize = 0;
        while i < CACHE_BUCKETS
            invariant
                i <= CACHE_BUCKETS,
                cache@.len() == i,
                forall|h: int| 0 <= h < i ==> (#[trigger] cache@[h])@.len() == 0,
            decreases CACHE_BUCKETS - i,
        {
            cache.push(Vec::new());
            i += 1;
        }
        cache[0].push(DFA_DEAD);
        let mut builder_states: Vec<DFABuilderState> = Vec::new();
        builder_states.push(dead);
        let builder = DFABuilder { nfa, dfa: DFA::empty(), builder_states, cache };
        proof {
            assert(builder.key(0).1 =~= Seq::<u32>::empty());
            assert(builder.cache@[0]@[0] == 0);
            assert(builder.cache@[0]@.contains(0u32));
        }
        builder
    }

    /// The builder has made the dead state only.
    pub closed spec fn is_new(&self) -> bool {
        self.dfa.len() == 1 && self.dfa.start == DFA_DEAD
    }

    /// A sparse set that can hold every state of the given automaton.
    fn new_sparse_set(&self) -> (set: SparseSet)
        requires
            self.nfa.wf(),
        ensures
            set.wf(),
            set@.len() == 0,
            set.bound() == self.nfa@.len(),
    {
        SparseSet::new(self.nfa.len())
    }

    /// Adds to `set` the states that empty transitions lead to from
    /// `start`, in the order of a depth-first walk that takes the first
    /// alternate of a union first.
    fn epsilon_closure(&self, start: u32, set: &mut SparseSet, stack: &mut Vec<u32>)
        requires
            self.nfa.wf(),
            (start as int) < self.nfa@.len(),
            old(set).wf(),
            old(set).bound() == self.nfa@.len(),
            closed(self.nfa@, old(set)@.to_set()),
            old(stack)@.len() == 0,
        ensures
            final(set).wf(),
            final(set).bound() == old(set).bound(),
            final(set)@.to_set() =~= old(set)@.to_set().union(closure(self.nfa@, set![start])),
            closed(self.nfa@, final(set)@.to_set()),
            final(stack)@.len() == 0,
    {
        let ghost t = self.nfa@;
        let ghost n = self.nfa@.len();
        let ghost v0 = set@;
        assert(t[start as int] == self.nfa.states@[start as int].model());
        if !self.nfa.states[start as usize].is_epsilon() {
            set.insert(start);
            proof {
                assert forall|b: u32| closure(t, set![start]).contains(b) implies b == start by {
                    let a = choose|a: u32| set![start].contains(a) && eps_reach(t, a, b);
                    let k = choose|k: nat| eps_path(t, a, b, k);
                    if k > 0 {
                        let c = choose|c: u32|
                            eps_edge(t, a, c) && eps_path(t, c, b, (k - 1) as nat);
                    }
                }
                lemma_reach_self(t, start);
                assert(set![start].contains(start));
                assert(closure(t, set![start]).contains(start));
                assert forall|x: u32| set@.to_set().contains(x) <==> v0.to_set().union(
                    closure(t, set![start]),
                ).contains(x) by {
                    if v0.contains(start) {
                    } else {
                        assert(set@ == v0.push(start));
                        if set@.contains(x) {
                            let j = choose|j: int| 0 <= j < set@.len() && set@[j] == x;
                            if j < v0.len() {
                                assert(v0[j] == x);
                            }
                        }
                        if v0.contains(x) {
                            let j = choose|j: int| 0 <= j < v0.len() && v0[j] == x;
                            assert(set@[j] == x);
                        }
                        assert(set@[v0.len() as int] == start);
                    }
                }
                assert forall|a: u32, b: u32|
                    set@.to_set().contains(a) && eps_edge(t, a, b) implies set@.to_set().contains(
                    b,
                ) by {
                    if a != start {
                        assert(v0.to_set().contains(a));
                        assert(v0.to_set().contains(b));
                    }
                }
            }
            return ;
        }
        stack.push(start);
        proof {
            lemma_reach_self(t, start);
            assert(stack@[0] == start);
        }
        while stack.len() > 0
            invariant
                self.nfa.wf(),
                t == self.nfa@,
                n == t.len(),
                (start as int) < n,
                set.wf(),
                set.bound() == n,
                forall|x: u32| set@.contains(x) ==> v0.contains(x) || eps_reach(t, start, x),
                forall|k: int|
                    0 <= k < stack@.len() ==> (#[trigger] stack@[k] as int) < n && eps_reach(
                        t,
                        start,
                        stack@[k],
                    ),
                forall|a: u32, c: u32|
                    set@.contains(a) && eps_edge(t, a, c) ==> set@.contains(c) || stack@.contains(c),
                set@.contains(start) || stack@.contains(start),
                forall|x: u32| v0.contains(x) ==> set@.contains(x),
            decreases n - set@.len(), stack@.len(),
        {
            let ghost stack0 = stack@;
            let ghost set0 = set@;
            let id = stack.pop().unwrap();
            proof {
                set.lemma_distinct();
                assert(stack0[stack0.len() - 1] == id);
                assert forall|x: u32| stack0.contains(x) implies stack@.contains(x) || x == id by {
                    let j = choose|j: int| 0 <= j < stack0.len() && stack0[j] == x;
                    if j < stack0.len() - 1 {
                        assert(stack@[j] == x);
                    }
                }
            }
            if set.contains(id) {
                continue ;
            }
            set.insert(id);
            proof {
                set.lemma_distinct();
                assert(set@ == set0.push(id));
                assert(set@[set0.len() as int] == id);
                assert forall|x: u32| set0.contains(x) implies set@.contains(x) by {
                    let j = choose|j: int| 0 <= j < set0.len() && set0[j] == x;
                    assert(set@[j] == x);
                }
                assert forall|x: u32| set@.contains(x) implies set0.contains(x) || x == id by {
                    let j = choose|j: int| 0 <= j < set@.len() && set@[j] == x;
                    if j < set0.len() {
                        assert(set0[j] == x);
                    }
                }
                assert(t[id as int] == self.nfa.states@[id as int].model());
            }
            let ghost stack1 = stack@;
            match &self.nfa.states[id as usize] {
                NFAState::Empty { next } => {
                    stack.push(*next);
                    proof {
                        assert(eps_edge(t, id, *next));
                        lemma_reach_edge(t, start, id, *next);
                        assert(stack@[stack1.len() as int] == *next);
                        assert forall|x: u32| stack1.contains(x) implies stack@.contains(x) by {
                            let j = choose|j: int| 0 <= j < stack1.len() && stack1[j] == x;
                            assert(stack@[j] == x);
                        }
                    }
                },
                NFAState::Union { alternates, .. } => {
                    let mut k: usize = alternates.len();
                    while k > 0
                        invariant
                            k <= alternates@.len(),
                            t == self.nfa@,
                            n == t.len(),
                            (id as int) < n,
                            table_wf(t),
                            t[id as int] matches StateModel::Union { alternates: alts, .. }
                                && alts == alternates@,
                            eps_reach(t, start, id),
                            forall|x: u32| stack1.contains(x) ==> stack@.contains(x),
                            forall|j: int|
                                0 <= j < stack@.len() ==> (#[trigger] stack@[j] as int) < n
                                    && eps_reach(t, start, stack@[j]),
                            forall|j: int|
                                k <= j < alternates@.len() ==> stack@.contains(
                                    #[trigger] alternates@[j],
                                ),
                        decreases k,
                    {
                        k -= 1;
                        let ghost before = stack@;
                        let alt = alternates[k];
                        stack.push(alt);
                        proof {
                            assert(alternates@.contains(alt));
                            assert(eps_edge(t, id, alt));
                            lemma_reach_edge(t, start, id, alt);
                            assert(stack@[before.len() as int] == alt);
                            assert forall|x: u32| before.contains(x) implies stack@.contains(x) by {
                                let j = choose|j: int| 0 <= j < before.len() && before[j] == x;
                                assert(stack@[j] == x);
                            }
                        }
                    }
                    proof {
                        assert forall|c: u32| eps_edge(t, id, c) implies stack@.contains(c) by {
                            let j = choose|j: int|
                                0 <= j < alternates@.len() && alternates@[j] == c;
                            assert(stack@.contains(alternates@[j]));
                        }
                    }
                },
                NFAState::Range { .. } | NFAState::Match => {},
            }
        }
        proof {
            let v = set@.to_set();
            assert forall|a: u32, b: u32| v.contains(a) && eps_edge(t, a, b) implies v.contains(
                b,
            ) by {
                assert(set@.contains(b) || stack@.contains(b));
            }
            assert(set![start].subset_of(v));
            lemma_closure_least(t, set![start], v);
            assert forall|x: u32| v.contains(x) <==> v0.to_set().union(
                closure(t, set![start]),
            ).contains(x) by {
                if set@.contains(x) && !v0.contains(x) {
                    assert(set![start].contains(start));
                    assert(closure(t, set![start]).contains(x));
                }
            }
        }
    }
}

/// A list with one more entry holds what it held, and the entry.
pub proof fn lemma_push_contains(s: Seq<u32>, x: u32)
    ensures
        s.push(x).contains(x),
        forall|y: u32| #[trigger] s.contains(y) ==> s.push(x).contains(y),
        forall|y: u32| #[trigger] s.push(x).contains(y) ==> s.contains(y) || y == x,
{
    assert(s.push(x)[s.len() as int] == x);
    assert forall|y: u32| #[trigger] s.contains(y) implies s.push(x).contains(y) by {
        let j = choose|j: int| 0 <= j < s.len() && s[j] == y;
        assert(s.push(x)[j] == y);
    }
    assert forall|y: u32| #[trigger] s.push(x).contains(y) implies s.contains(y) || y == x by {
        let j = choose|j: int| 0 <= j < s.push(x).len() && s.push(x)[j] == y;
        if j < s.len() {
            assert(s[j] == y);
        }
    }
}

/// A longer start of a list holds what the shorter start held, and the
/// entry between them.
pub proof fn lemma_take_next(s: Seq<u32>, i: int)
    requires
        0 <= i < s.len(),
    ensures
        s.take(i + 1) == s.take(i).push(s[i]),
        s.take(i + 1).contains(s[i]),
        forall|y: u32| #[trigger] s.take(i).contains(y) ==> s.take(i + 1).contains(y),
        forall|y: u32| #[trigger] s.take(i + 1).contains(y) ==> s.take(i).contains(y) || y == s[i],
{
    assert(s.take(i + 1) =~= s.take(i).push(s[i]));
    lemma_push_contains(s.take(i), s[i]);
}

impl<'a> DFABuilder<'a> {
    /// Collects in `set` the states that byte `b` and then empty
    /// transitions lead to from the set of state `dfa_id`.
    fn next(&self, dfa_id: u32, b: u8, set: &mut SparseSet, stack: &mut Vec<u32>)
        requires
            self.wf(),
            (dfa_id as int) < self.dfa.len(),
            old(set).wf(),
            old(set).bound() == self.nfa@.len(),
            old(stack)@.len() == 0,
        ensures
            final(set).wf(),
            final(set).bound() == old(set).bound(),
            final(set)@.to_set() =~= closure(
                self.nfa@,
                step_set(self.nfa@, self.key(dfa_id as int).1.to_set(), b),
            ),
            final(stack)@.len() == 0,
    {
        let ghost t = self.nfa@;
        let ghost ids = self.key(dfa_id as int).1;
        set.clear();
        proof {
            assert(self.state_ok(dfa_id as int));
            assert(step_set(t, ids.take(0).to_set(), b) =~= Set::<u32>::empty());
            assert(closure(t, Set::<u32>::empty()) =~= Set::<u32>::empty());
            assert(set@.to_set() =~= Set::<u32>::empty());
        }
        let mut i: usize = 0;
        while i < self.builder_states[dfa_id as usize].nfa_states.len()
            invariant
                self.wf(),
                t == self.nfa@,
                (dfa_id as int) < self.dfa.len(),
                ids == self.builder_states@[dfa_id as int].nfa_states@,
                i <= ids.len(),
                set.wf(),
                set.bound() == t.len(),
                stack@.len() == 0,
                set@.to_set() =~= closure(t, step_set(t, ids.take(i as int).to_set(), b)),
            decreases ids.len() - i,
        {
            let nfa_id = self.builder_states[dfa_id as usize].nfa_states.get(i);
            let ghost done = ids.take(i as int);
            let ghost more = ids.take(i + 1);
            proof {
                assert(self.state_ok(dfa_id as int));
                assert(is_range(t, self.key(dfa_id as int).1[i as int]));
                assert(t[nfa_id as int] == self.nfa.states@[nfa_id as int].model());
                lemma_take_next(ids, i as int);
                assert(more.contains(nfa_id));
                lemma_closure_closed(t, step_set(t, done.to_set(), b));
            }
            match self.nfa.states[nfa_id as usize] {
                NFAState::Range { start, end, next } => {
                    if start <= b && b <= end {
                        self.epsilon_closure(next, set, stack);
                        proof {
                            let from = step_set(t, done.to_set(), b);
                            assert(reads(t, nfa_id, b, next));
                            assert(step_set(t, more.to_set(), b) =~= from.insert(next)) by {
                                assert forall|x: u32|
                                    step_set(t, more.to_set(), b).contains(x) <==> from.insert(
                                        next,
                                    ).contains(x) by {
                                    if step_set(t, more.to_set(), b).contains(x) {
                                        let a = choose|a: u32|
                                            more.to_set().contains(a) && reads(t, a, b, x);
                                        if a != nfa_id {
                                            assert(done.to_set().contains(a));
                                        }
                                    }
                                    if from.contains(x) {
                                        let a = choose|a: u32|
                                            done.to_set().contains(a) && reads(t, a, b, x);
                                        assert(more.to_set().contains(a));
                                    }
                                    if x == next {
                                        assert(more.to_set().contains(nfa_id));
                                    }
                                }
                            }
                            lemma_closure_insert(t, from, next);
                        }
                    } else {
                        proof {
                            let from = step_set(t, done.to_set(), b);
                            assert(step_set(t, more.to_set(), b) =~= from) by {
                                assert forall|x: u32|
                                    step_set(t, more.to_set(), b).contains(x) <==> from.contains(
                                        x,
                                    ) by {
                                    if step_set(t, more.to_set(), b).contains(x) {
                                        let a = choose|a: u32|
                                            more.to_set().contains(a) && reads(t, a, b, x);
                                        assert(a != nfa_id);
                                        assert(done.to_set().contains(a));
                                    }
                                    if from.contains(x) {
                                        let a = choose|a: u32|
                                            done.to_set().contains(a) && reads(t, a, b, x);
                                        assert(more.to_set().contains(a));
                                    }
                                }
                            }
                        }
                    }
                },
                NFAState::Empty { .. } | NFAState::Union { .. } | NFAState::Match => {},
            }
            i += 1;
        }
        assert(ids.take(i as int) =~= ids);
    }

    /// The canonical form of `set`.
    fn new_state(&self, set: &SparseSet) -> (state: DFABuilderState)
        requires
            self.nfa.wf(),
            set.wf(),
            set.bound() == self.nfa@.len(),
        ensures
            is_key(self.nfa@, set@.to_set(), state.is_match, state.nfa_states@),
    {
        let ghost t = self.nfa@;
        let mut is_match = false;
        let mut ids = StateSet::empty();
        let mut i: usize = 0;
        proof {
            set.lemma_distinct();
        }
        while i < set.len()
            invariant
                i <= set@.len(),
                t == self.nfa@,
                forall|j: int| 0 <= j < set@.len() ==> (#[trigger] set@[j] as int) < t.len(),
                forall|x: u32|
                    #[trigger] ids@.contains(x) ==> set@.take(i as int).contains(x) && is_range(
                        t,
                        x,
                    ),
                forall|x: u32|
                    #[trigger] set@.take(i as int).contains(x) && is_range(t, x)
                        ==> ids@.contains(x),
                is_match == has_match(t, set@.take(i as int).to_set()),
            decreases set@.len() - i,
        {
            let id = set.get(i);
            let ghost done = set@.take(i as int);
            let ghost more = set@.take(i + 1);
            let ghost ids0 = ids@;
            proof {
                lemma_take_next(set@, i as int);
                lemma_push_contains(ids0, id);
                assert(more.contains(id));
                assert((set@[i as int] as int) < t.len());
                assert(t[id as int] == self.nfa.states@[id as int].model());
            }
            match self.nfa.states[id as usize] {
                NFAState::Range { .. } => {
                    ids.add(id);
                    proof {
                        assert(has_match(t, more.to_set()) == has_match(t, done.to_set())) by {
                            if has_match(t, more.to_set()) {
                                let m = choose|m: u32|
                                    more.to_set().contains(m) && (m as int) < t.len()
                                        && t[m as int] is Match;
                                assert(done.to_set().contains(m));
                            }
                            if has_match(t, done.to_set()) {
                                let m = choose|m: u32|
                                    done.to_set().contains(m) && (m as int) < t.len()
                                        && t[m as int] is Match;
                                assert(more.to_set().contains(m));
                            }
                        }
                    }
                },
                NFAState::Match => {
                    is_match = true;
                    proof {
                        assert(more.to_set().contains(id));
                    }
                },
                NFAState::Empty { .. } | NFAState::Union { .. } => {
                    proof {
                        assert(has_match(t, more.to_set()) == has_match(t, done.to_set())) by {
                            if has_match(t, more.to_set()) {
                                let m = choose|m: u32|
                                    more.to_set().contains(m) && (m as int) < t.len()
                                        && t[m as int] is Match;
                                assert(done.to_set().contains(m));
                            }
                            if has_match(t, done.to_set()) {
                                let m = choose|m: u32|
                                    done.to_set().contains(m) && (m as int) < t.len()
                                        && t[m as int] is Match;
                                assert(more.to_set().contains(m));
                            }
                        }
                    }
                },
            }
            proof {
                assert forall|x: u32| #[trigger] ids@.contains(x) implies more.contains(x)
                    && is_range(t, x) by {
                    if ids0.contains(x) {
                        assert(done.contains(x));
                    } else {
                        assert(x == id);
                    }
                }
                assert forall|x: u32| #[trigger] more.contains(x) && is_range(t, x) implies ids@.contains(
                    x,
                ) by {
                    if x != id {
                        assert(done.contains(x));
                        assert(ids0.contains(x));
                    }
                }
            }
            i += 1;
        }
        assert(set@.take(i as int) =~= set@);
        let ghost collected = ids@;
        ids.canonicalize();
        proof {
            assert forall|x: u32|
                ids@.contains(x) <==> set@.to_set().contains(x) && is_range(t, x) by {
                if ids@.contains(x) {
                    assert(collected.contains(x));
                }
                if set@.contains(x) && is_range(t, x) {
                    assert(collected.contains(x));
                }
            }
        }
        DFABuilderState { is_match, nfa_states: ids }
    }

    /// The state that stands for the canonical set `state`, if there is
    /// one.
    fn lookup(&self, state: &DFABuilderState) -> (found: Option<u32>)
        requires
            self.wf(),
        ensures
            match found {
                Some(d) => (d as int) < self.dfa.len() && self.key(d as int) == state.key(),
                None => forall|d: int| 0 <= d < self.dfa.len() ==> self.key(d) != state.key(),
            },
    {
        let h = state.hash();
        let mut k: usize = 0;
        while k < self.cache[h].len()
            invariant
                self.wf(),
                h < CACHE_BUCKETS,
                h == hash_of(state.is_match, state.nfa_states@),
                k <= self.cache@[h as int]@.len(),
                forall|j: int|
                    0 <= j < k ==> self.key(#[trigger] self.cache@[h as int]@[j] as int)
                        != state.key(),
            decreases self.cache@[h as int]@.len() - k,
        {
            let d = self.cache[h][k];
            assert((self.cache@[h as int]@[k as int] as int) < self.dfa.len());
            if self.builder_states[d as usize].same_as(state) {
                return Some(d);
            }
            k += 1;
        }
        proof {
            assert forall|d: int| 0 <= d < self.dfa.len() implies self.key(d) != state.key() by {
                if self.key(d) == state.key() {
                    assert(self.cache@[hash_of(self.key(d).0, self.key(d).1)]@.contains(d as u32));
                    let j = choose|j: int|
                        0 <= j < self.cache@[h as int]@.len() && self.cache@[h as int]@[j]
                            == d as u32;
                    assert(self.key(self.cache@[h as int]@[j] as int) != state.key());
                }
            }
        }
        None
    }

    /// Makes a new state stand for the canonical set `state`, unless there
    /// are as many states as identifiers already.
    fn add_state(&mut self, state: DFABuilderState) -> (id: Option<u32>)
        requires
            old(self).wf(),
            state.nfa_states.is_canonical(),
            forall|k: int|
                0 <= k < state.nfa_states@.len() ==> is_range(
                    old(self).nfa@,
                    #[trigger] state.nfa_states@[k],
                ),
            forall|d: int| 0 <= d < old(self).dfa.len() ==> old(self).key(d) != state.key(),
            exists|input: Seq<u8>|
                is_key(
                    old(self).nfa@,
                    after(old(self).nfa@, input),
                    state.is_match,
                    state.nfa_states@,
                ),
        ensures
            id is None <==> old(self).dfa.len() >= u32::MAX,
            id is None ==> *final(self) == *old(self),
            id is Some ==> {
                &&& final(self).wf()
                &&& final(self).extends(old(self))
                &&& id->Some_0 as int == old(self).dfa.len()
                &&& final(self).dfa.len() == old(self).dfa.len() + 1
                &&& final(self).key(id->Some_0 as int) == state.key()
            },
    {
        if self.dfa.states.len() >= u32::MAX as usize {
            return None;
        }
        let id = self.dfa.states.len() as u32;
        let h = state.hash();
        let mut fresh = DFAState::empty();
        fresh.is_match = state.is_match;
        let ghost key = state.key();
        self.dfa.states.push(fresh);
        self.builder_states.push(state);
        self.cache[h].push(id);
        proof {
            let n = self.dfa.len();
            let before = old(self);
            assert forall|d: int| 0 <= d < n - 1 implies self.dfa.states@[d] == before.dfa.states@[d]
                && self.key(d) == before.key(d) by {}
            assert(self.key(id as int) == key);
            assert forall|d: int| 0 <= d < n implies self.state_ok(d) by {
                if d < n - 1 {
                    assert(before.state_ok(d));
                }
            }
            assert forall|q: int, b: int| 0 <= q < n && 0 <= b < 256 implies (
            #[trigger] self.dfa.states@[q].transitions@[b] as int) < n by {
                if q < n - 1 {
                    assert((before.dfa.states@[q].transitions@[b] as int) < n - 1);
                }
            }
            assert forall|q: int| 0 <= q < n implies (#[trigger] self.dfa.states@[q]).transitions@.len()
                == ALPHABET_SIZE by {
                if q < n - 1 {
                    assert(before.dfa.states@[q].transitions@.len() == ALPHABET_SIZE);
                }
            }
            assert forall|hh: int, k: int|
                0 <= hh < CACHE_BUCKETS && 0 <= k < self.cache@[hh]@.len() implies (
            #[trigger] self.cache@[hh]@[k] as int) < n && hash_of(
                self.key(self.cache@[hh]@[k] as int).0,
                self.key(self.cache@[hh]@[k] as int).1,
            ) == hh by {
                if hh == h && k == before.cache@[hh]@.len() {
                } else {
                    assert(self.cache@[hh]@[k] == before.cache@[hh]@[k]);
                    assert((before.cache@[hh]@[k] as int) < n - 1);
                }
            }
            assert forall|d: int| 0 <= d < n implies self.cache@[hash_of(
                self.key(d).0,
                self.key(d).1,
            )]@.contains(d as u32) by {
                let hd = hash_of(self.key(d).0, self.key(d).1);
                if d < n - 1 {
                    assert(before.cache@[hd]@.contains(d as u32));
                    let j = choose|j: int|
                        0 <= j < before.cache@[hd]@.len() && before.cache@[hd]@[j] == d as u32;
                    assert(self.cache@[hd]@[j] == d as u32);
                } else {
                    assert(self.cache@[h as int]@[before.cache@[h as int]@.len() as int] == id);
                }
            }
            assert forall|d: int| 1 <= d < n implies self.reachable(d) by {
                if d < n - 1 {
                    assert(before.reachable(d));
                    let input = choose|input: Seq<u8>|
                        is_key(
                            before.nfa@,
                            after(before.nfa@, input),
                            before.key(d).0,
                            before.key(d).1,
                        );
                    assert(is_key(self.nfa@, after(self.nfa@, input), self.key(d).0, self.key(d).1));
                } else {
                    let input = choose|input: Seq<u8>|
                        is_key(before.nfa@, after(before.nfa@, input), key.0, key.1);
                    assert(is_key(self.nfa@, after(self.nfa@, input), self.key(d).0, self.key(d).1));
                }
            }
        }
        Some(id)
    }

    /// The state that byte `b` leads to from state `dfa_id`, and whether
    /// it has just been made.
    fn cached_state(
        &mut self,
        dfa_id: u32,
        b: u8,
        sparse: &mut SparseSet,
        stack: &mut Vec<u32>,
    ) -> (found: Option<(u32, bool)>)
        requires
            old(self).wf(),
            (dfa_id as int) < old(self).dfa.len(),
            old(sparse).wf(),
            old(sparse).bound() == old(self).nfa@.len(),
            old(stack)@.len() == 0,
        ensures
            final(sparse).wf(),
            final(sparse).bound() == old(sparse).bound(),
            final(stack)@.len() == 0,
            found is None ==> !fits(old(self).nfa@),
            found is Some ==> {
                let (to, made) = found->Some_0;
                &&& final(self).wf()
                &&& final(self).extends(old(self))
                &&& (to as int) < final(self).dfa.len()
                &&& to != DFA_DEAD || !made
                &&& final(self).dfa.len() == old(self).dfa.len() + if made {
                    1int
                } else {
                    0int
                }
                &&& made ==> to as int == old(self).dfa.len()
                &&& is_key(
                    old(self).nfa@,
                    closure(
                        old(self).nfa@,
                        step_set(old(self).nfa@, old(self).key(dfa_id as int).1.to_set(), b),
                    ),
                    final(self).key(to as int).0,
                    final(self).key(to as int).1,
                )
            },
    {
        let ghost t = self.nfa@;
        let ghost ids = self.key(dfa_id as int).1;
        let ghost target = closure(t, step_set(t, ids.to_set(), b));
        self.next(dfa_id, b, sparse, stack);
        let state = self.new_state(sparse);
        assert(is_key(t, target, state.is_match, state.nfa_states@));
        match self.lookup(&state) {
            Some(id) => Some((id, false)),
            None => {
                proof {
                    assert forall|k: int| 0 <= k < state.nfa_states@.len() implies is_range(
                        t,
                        #[trigger] state.nfa_states@[k],
                    ) by {
                        assert(state.nfa_states@.contains(state.nfa_states@[k]));
                    }
                    if dfa_id == 0 {
                        lemma_nothing_from_nothing(t, b);
                        assert(ids =~= Seq::<u32>::empty());
                        lemma_key_unique(
                            t,
                            target,
                            state.is_match,
                            state.nfa_states@,
                            false,
                            Seq::<u32>::empty(),
                        );
                        assert(self.key(0) == state.key());
                    }
                    assert(self.reachable(dfa_id as int));
                    let input = choose|input: Seq<u8>|
                        is_key(t, after(t, input), self.key(dfa_id as int).0, ids);
                    let longer = input.push(b);
                    assert(longer.drop_last() =~= input);
                    assert(longer.last() == b);
                    lemma_step_by_key(t, after(t, input), ids, b);
                    assert(after(t, longer) == target);
                    assert(is_key(t, after(t, longer), state.is_match, state.nfa_states@));
                }
                let ghost fresh_key = state.key();
                let ghost before = *self;
                match self.add_state(state) {
                    Some(id) => Some((id, true)),
                    None => {
                        proof {
                            before.lemma_full(fresh_key);
                        }
                        None
                    },
                }
            },
        }
    }

    /// With as many states as identifiers and one more set to stand for,
    /// the deterministic automaton does not fit.
    proof fn lemma_full(&self, fresh: (bool, Seq<u32>))
        requires
            self.wf(),
            self.dfa.len() >= u32::MAX,
            forall|d: int| 0 <= d < self.dfa.len() ==> self.key(d) != fresh,
            exists|input: Seq<u8>| is_key(self.nfa@, after(self.nfa@, input), fresh.0, fresh.1),
        ensures
            !fits(self.nfa@),
    {
        let t = self.nfa@;
        let n = self.dfa.len();
        let keys = Seq::new((n + 1) as nat, |d: int| if d < n { self.key(d) } else { fresh });
        assert(keys.no_duplicates()) by {
            assert forall|i: int, j: int| 0 <= i < keys.len() && 0 <= j < keys.len() && i != j implies keys[i] != keys[j] by {}
        }
        assert(keys.to_set().subset_of(subset_keys(t))) by {
            assert forall|k: (bool, Seq<u32>)| keys.to_set().contains(k) implies subset_keys(t).contains(k) by {
                let d = choose|d: int| 0 <= d < keys.len() && keys[d] == k;
                if 1 <= d < n {
                    assert(self.reachable(d));
                }
            }
        }
        keys.unique_seq_to_set();
        if subset_keys(t).finite() {
            vstd::set_lib::lemma_len_subset(keys.to_set(), subset_keys(t));
        }
    }
}

impl<'a> DFABuilder<'a> {
    /// The start state stands for what empty transitions lead to from
    /// state 0.
    pub closed spec fn start_ok(&self) -> bool {
        is_key(
            self.nfa@,
            after(self.nfa@, Seq::<u8>::empty()),
            self.key(self.dfa.start as int).0,
            self.key(self.dfa.start as int).1,
        )
    }

    /// Whatever is read, the deterministic automaton is in the state that
    /// stands for the set of states that the given automaton may be in.
    proof fn lemma_simulation(&self, input: Seq<u8>)
        requires
            self.wf(),
            self.start_ok(),
            forall|d: int| 0 <= d < self.dfa.len() ==> self.compiled(d),
        ensures
            0 <= self.dfa.run(self.dfa.start as int, input) < self.dfa.len(),
            is_key(
                self.nfa@,
                after(self.nfa@, input),
                self.key(self.dfa.run(self.dfa.start as int, input)).0,
                self.key(self.dfa.run(self.dfa.start as int, input)).1,
            ),
            self.dfa.accepts(input) == nfa_accepts(self.nfa@, input),
        decreases input.len(),
    {
        let t = self.nfa@;
        self.dfa.lemma_run_in_range(self.dfa.start as int, input);
        if input.len() > 0 {
            let shorter = input.drop_last();
            self.lemma_simulation(shorter);
            let d = self.dfa.run(self.dfa.start as int, shorter);
            assert(self.compiled(d));
            assert(self.trans_ok(d, input.last()));
            lemma_step_by_key(t, after(t, shorter), self.key(d).1, input.last());
        }
        let e = self.dfa.run(self.dfa.start as int, input);
        assert(self.state_ok(e));
    }

    /// With every state compiled, every state but the dead state is
    /// reached from the start state.
    proof fn lemma_all_reached(&self)
        requires
            self.wf(),
            self.start_ok(),
            forall|d: int| 0 <= d < self.dfa.len() ==> self.compiled(d),
        ensures
            self.dfa.all_reached(),
    {
        let t = self.nfa@;
        assert forall|d: int| 1 <= d < self.dfa.len() implies #[trigger] self.dfa.reaches(d) by {
            assert(self.reachable(d));
            let input = choose|input: Seq<u8>|
                is_key(t, after(t, input), self.key(d).0, self.key(d).1);
            self.lemma_simulation(input);
            let e = self.dfa.run(self.dfa.start as int, input);
            lemma_key_unique(t, after(t, input), self.key(d).0, self.key(d).1, self.key(e).0, self.key(e).1);
            assert(self.key(d) == self.key(e));
            assert(self.dfa.run(self.dfa.start as int, input) == d);
        }
    }

    /// With every state compiled, the deterministic automaton fits.
    proof fn lemma_fits(&self)
        requires
            self.wf(),
            self.start_ok(),
            forall|d: int| 0 <= d < self.dfa.len() ==> self.compiled(d),
        ensures
            fits(self.nfa@),
            self.dfa.len() == subset_keys(self.nfa@).len(),
    {
        let t = self.nfa@;
        let n = self.dfa.len();
        let keys = Seq::new(n as nat, |d: int| self.key(d));
        assert(keys.no_duplicates()) by {
            assert forall|i: int, j: int|
                0 <= i < keys.len() && 0 <= j < keys.len() && i != j implies keys[i] != keys[j] by {}
        }
        assert(keys.to_set().subset_of(subset_keys(t))) by {
            assert forall|k: (bool, Seq<u32>)| keys.to_set().contains(k) implies subset_keys(
                t,
            ).contains(k) by {
                let d = choose|d: int| 0 <= d < keys.len() && keys[d] == k;
                if 1 <= d < n {
                    assert(self.reachable(d));
                }
            }
        }
        keys.unique_seq_to_set();
        assert(subset_keys(t).subset_of(keys.to_set())) by {
            assert forall|k: (bool, Seq<u32>)| subset_keys(t).contains(k) implies keys.to_set().contains(
                k,
            ) by {
                if k == (false, Seq::<u32>::empty()) {
                    assert(keys[0] == k);
                } else {
                    let input = choose|input: Seq<u8>| is_key(t, after(t, input), k.0, k.1);
                    self.lemma_simulation(input);
                    let d = self.dfa.run(self.dfa.start as int, input);
                    lemma_key_unique(t, after(t, input), k.0, k.1, self.key(d).0, self.key(d).1);
                    assert(keys[d] == k);
                }
            }
        }
        vstd::seq_lib::seq_to_set_is_finite(keys);
        keys.lemma_cardinality_of_set();
        vstd::set_lib::lemma_len_subset(subset_keys(t), keys.to_set());
        assert(keys.to_set() =~= subset_keys(t));
    }

    /// Makes the start state: the state of the set that empty transitions
    /// lead to from state 0. Returns it, and whether it has just been
    /// made.
    fn add_start(&mut self, sparse: &mut SparseSet, stack: &mut Vec<u32>) -> (made: (u32, bool))
        requires
            old(self).wf(),
            old(self).is_new(),
            old(sparse).wf(),
            old(sparse)@.len() == 0,
            old(sparse).bound() == old(self).nfa@.len(),
            old(stack)@.len() == 0,
        ensures
            final(sparse).wf(),
            final(sparse).bound() == old(sparse).bound(),
            final(stack)@.len() == 0,
            final(self).wf(),
            final(self).nfa == old(self).nfa,
            final(self).start_ok(),
            final(self).dfa.start == made.0,
            final(self).dfa.len() == if made.1 {
                2int
            } else {
                1int
            },
            made.1 ==> made.0 == 1,
            !made.1 ==> made.0 == 0,
    {
        let ghost t = self.nfa@;
        proof {
            assert(sparse@.to_set() =~= Set::<u32>::empty());
        }
        self.epsilon_closure(0, sparse, stack);
        let state = self.new_state(sparse);
        proof {
            assert(sparse@.to_set() =~= closure(t, set![0u32]));
            assert(after(t, Seq::<u8>::empty()) == closure(t, set![0u32]));
            assert forall|k: int| 0 <= k < state.nfa_states@.len() implies is_range(
                t,
                #[trigger] state.nfa_states@[k],
            ) by {
                assert(state.nfa_states@.contains(state.nfa_states@[k]));
            }
        }
        let ghost before = *self;
        let found = self.lookup(&state);
        let (id, made) = match found {
            Some(id) => (id, false),
            None => {
                let added = self.add_state(state);
                (added.unwrap(), true)
            },
        };
        let ghost middle = *self;
        self.dfa.start = id;
        proof {
            assert(middle.wf());
            assert forall|d: int| 0 <= d < self.dfa.len() implies self.state_ok(d) by {
                assert(middle.state_ok(d));
            }
            assert forall|d: int| 1 <= d < self.dfa.len() implies self.reachable(d) by {
                assert(middle.reachable(d));
                let input = choose|input: Seq<u8>|
                    is_key(middle.nfa@, after(middle.nfa@, input), middle.key(d).0, middle.key(d).1);
                assert(is_key(self.nfa@, after(self.nfa@, input), self.key(d).0, self.key(d).1));
            }
        }
        (id, made)
    }

    /// Builds the deterministic automaton: compiles the transitions of the
    /// start state and of every state that is made on the way. Gives
    /// nothing if that takes more states than identifiers can name.
    pub fn build(self) -> (built: Option<DFA>)
        requires
            self.wf(),
            self.is_new(),
        ensures
            built is Some <==> fits(self.table()),
            built is Some ==> built->Some_0.wf() && same_language(built->Some_0, self.table())
                && built->Some_0.len() == subset_keys(self.table()).len() && built->Some_0.start
                == start_of(built->Some_0.len() as int) && built->Some_0.all_reached(),
    {
        let ghost t = self.nfa@;
        let mut this = self;
        let mut sparse = this.new_sparse_set();
        let mut stack: Vec<u32> = Vec::new();
        let mut uncompiled: Vec<u32> = Vec::new();
        let (start, made) = this.add_start(&mut sparse, &mut stack);
        if made {
            uncompiled.push(start);
            assert(uncompiled@[0] == 1);
        }
        proof {
            lemma_nothing_from_nothing(t, 0);
            assert forall|b: u8| this.trans_ok(0, b) by {
                lemma_nothing_from_nothing(t, b);
                assert(this.key(0).1 =~= Seq::<u32>::empty());
                assert(this.dfa.states@[0].transitions@[b as int] == DFA_DEAD);
            }
        }
        while uncompiled.len() > 0
            invariant
                this.wf(),
                this.nfa@ == t,
                t == self.table(),
                this.start_ok(),
                sparse.wf(),
                sparse.bound() == t.len(),
                stack@.len() == 0,
                this.compiled(0),
                this.dfa.start == start,
                made ==> start == 1 && this.dfa.len() >= 2,
                !made ==> start == 0 && this.dfa.len() == 1 && uncompiled@.len() == 0,
                forall|k: int|
                    0 <= k < uncompiled@.len() ==> 1 <= #[trigger] uncompiled@[k]
                        < this.dfa.len(),
                forall|d: int|
                    1 <= d < this.dfa.len() ==> uncompiled@.contains(d as u32) || this.compiled(d),
            decreases u32::MAX - this.dfa.len(), uncompiled@.len(),
        {
            let ghost waiting0 = uncompiled@;
            let ghost len0 = this.dfa.len();
            let dfa_id = uncompiled.pop().unwrap();
            proof {
                assert(waiting0[waiting0.len() - 1] == dfa_id);
                assert forall|d: int| 1 <= d < this.dfa.len() && d != dfa_id implies uncompiled@.contains(
                    d as u32,
                ) || this.compiled(d) by {
                    if waiting0.contains(d as u32) {
                        let j = choose|j: int| 0 <= j < waiting0.len() && waiting0[j] == d as u32;
                        assert(uncompiled@[j] == d as u32);
                    }
                }
            }
            let mut b: usize = 0;
            while b < ALPHABET_SIZE
                invariant
                    b <= ALPHABET_SIZE,
                    this.wf(),
                    this.nfa@ == t,
                    t == self.table(),
                    this.start_ok(),
                    sparse.wf(),
                    sparse.bound() == t.len(),
                    stack@.len() == 0,
                    this.compiled(0),
                    this.dfa.start == start,
                    made && start == 1,
                    1 <= dfa_id < this.dfa.len(),
                    len0 <= this.dfa.len(),
                    this.dfa.len() == len0 ==> uncompiled@.len() == waiting0.len() - 1,
                    forall|k: int|
                        0 <= k < uncompiled@.len() ==> 1 <= #[trigger] uncompiled@[k]
                            < this.dfa.len(),
                    forall|d: int|
                        1 <= d < this.dfa.len() && d != dfa_id ==> uncompiled@.contains(d as u32)
                            || this.compiled(d),
                    forall|c: u8| (c as int) < b ==> this.trans_ok(dfa_id as int, c),
                decreases ALPHABET_SIZE - b,
            {
                let ghost before = this;
                let ghost waiting1 = uncompiled@;
                let found = this.cached_state(dfa_id, b as u8, &mut sparse, &mut stack);
                let (next, fresh) = match found {
                    Some(pair) => pair,
                    None => {
                        return None;
                    },
                };
                if fresh {
                    uncompiled.push(next);
                }
                let ghost middle = this;
                this.dfa.set_transition(dfa_id, b as u8, next);
                proof {
                    let n = this.dfa.len();
                    assert(before.state_ok(dfa_id as int));
                    assert(middle.extends(&before));
                    assert forall|d: int| 0 <= d < n implies this.dfa.states@[d].is_match
                        == middle.dfa.states@[d].is_match && this.key(d) == middle.key(d) by {}
                    assert forall|d: int| 0 <= d < n implies this.state_ok(d) by {
                        assert(middle.state_ok(d));
                    }
                    assert forall|q: int, c: int| 0 <= q < n && 0 <= c < 256 implies (
                    #[trigger] this.dfa.states@[q].transitions@[c] as int) < n by {
                        if q != dfa_id {
                            assert((middle.dfa.states@[q].transitions@[c] as int) < n);
                        } else if c != b {
                            assert((middle.dfa.states@[q].transitions@[c] as int) < n);
                        }
                    }
                    assert forall|q: int| 0 <= q < n implies (#[trigger] this.dfa.states@[q]).transitions@.len()
                        == ALPHABET_SIZE by {
                        assert(middle.dfa.states@[q].transitions@.len() == ALPHABET_SIZE);
                    }
                    assert forall|d: int| 1 <= d < n implies this.reachable(d) by {
                        assert(middle.reachable(d));
                        let input = choose|input: Seq<u8>|
                            is_key(
                                middle.nfa@,
                                after(middle.nfa@, input),
                                middle.key(d).0,
                                middle.key(d).1,
                            );
                        assert(is_key(
                            this.nfa@,
                            after(this.nfa@, input),
                            this.key(d).0,
                            this.key(d).1,
                        ));
                    }
                    assert(this.wf());
                    assert forall|d: int, c: u8|
                        0 <= d < n && d != dfa_id && middle.trans_ok(d, c) implies this.trans_ok(
                        d,
                        c,
                    ) by {}
                    assert forall|c: u8| (c as int) < b + 1 implies this.trans_ok(
                        dfa_id as int,
                        c,
                    ) by {
                        if (c as int) < b {
                            assert(before.trans_ok(dfa_id as int, c));
                            middle.lemma_extends_keeps(&before, dfa_id as int);
                            assert(middle.trans_ok(dfa_id as int, c));
                        }
                    }
                    assert(this.compiled(0)) by {
                        middle.lemma_extends_keeps(&before, 0);
                        assert forall|c: u8| this.trans_ok(0, c) by {
                            assert(middle.trans_ok(0, c));
                        }
                    }
                    assert forall|d: int|
                        1 <= d < n && d != dfa_id implies uncompiled@.contains(d as u32)
                        || this.compiled(d) by {
                        if d < before.dfa.len() {
                            if waiting1.contains(d as u32) {
                                let j = choose|j: int|
                                    0 <= j < waiting1.len() && waiting1[j] == d as u32;
                                assert(uncompiled@[j] == d as u32);
                            } else {
                                assert(before.compiled(d));
                                middle.lemma_extends_keeps(&before, d);
                                assert forall|c: u8| this.trans_ok(d, c) by {
                                    assert(middle.trans_ok(d, c));
                                }
                            }
                        } else {
                            assert(fresh && d == next);
                            assert(uncompiled@[waiting1.len() as int] == next);
                        }
                    }
                    assert(this.start_ok()) by {
                        assert(before.start_ok());
                    }
                }
                b += 1;
            }
            proof {
                assert forall|c: u8| this.trans_ok(dfa_id as int, c) by {
                    assert((c as int) < 256);
                }
                assert(this.compiled(dfa_id as int));
            }
        }
        proof {
            assert forall|d: int| 0 <= d < this.dfa.len() implies this.compiled(d) by {
                if d >= 1 {
                    assert(!uncompiled@.contains(d as u32));
                }
            }
            this.lemma_fits();
            this.lemma_all_reached();
            assert forall|input: Seq<u8>| this.dfa.accepts(input) == nfa_accepts(t, input) by {
                this.lemma_simulation(input);
            }
        }
        Some(this.dfa)
    }
}

impl DFA {
    /// The deterministic automaton that accepts what `nfa` accepts, if it
    /// has no more states than identifiers can name. It has one state for
    /// the empty set and one for each set of states that some input leads
    /// to, and each of these is reached from its start state. Its start
    /// state is state 1, unless the dead state is its only state.
    pub fn from_nfa(nfa: &NFA) -> (built: Option<DFA>)
        requires
            nfa.wf(),
        ensures
            built is Some <==> fits(nfa@),
            built is Some ==> built->Some_0.wf() && same_language(built->Some_0, nfa@)
                && built->Some_0.len() == subset_keys(nfa@).len() && built->Some_0.start
                == start_of(built->Some_0.len() as int) && built->Some_0.all_reached(),
    {
        DFABuilder::new(nfa).build()
    }
}

} // verus!
