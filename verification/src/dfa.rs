//! Dense deterministic finite automata over bytes, and the matcher that
//! walks them.

use vstd::prelude::*;

verus! {

/// The identifier of the dead state: it matches nothing and every transition
/// out of it leads back to it.
pub const DFA_DEAD: u32 = 0;

/// The number of transitions out of every state, one for each byte value.
pub const ALPHABET_SIZE: usize = 256;

/// One state of a [`DFA`]: whether it accepts and where each byte leads.
pub struct DFAState {
    pub is_match: bool,
    pub transitions: Vec<u32>,
}

/// A deterministic finite automaton with a dense transition table.
pub struct DFA {
    /// The states; transitions are indices into this list.
    pub states: Vec<DFAState>,
    /// The state in which a search begins.
    pub start: u32,
}

impl DFAState {
    /// A state that does not accept and leads to the dead state on every
    /// byte.
    pub fn empty() -> (state: DFAState)
        ensures
            !state.is_match,
            state.transitions@ == Seq::new(ALPHABET_SIZE as nat, |b: int| DFA_DEAD),
    {
        let mut transitions: Vec<u32> = Vec::new();
        let mut i: usize = 0;
        while i < ALPHABET_SIZE
            invariant
                i <= ALPHABET_SIZE,
                transitions@ == Seq::new(i as nat, |b: int| DFA_DEAD),
            decreases ALPHABET_SIZE - i,
        {
            transitions.push(DFA_DEAD);
            i += 1;
            assert(transitions@ =~= Seq::new(i as nat, |b: int| DFA_DEAD));
        }
        DFAState { is_match: false, transitions }
    }

    /// Whether `ranges` lists the transitions of this state as maximal runs
    /// of consecutive bytes with a common target, in increasing order.
    pub open spec fn is_sparse_form(&self, ranges: Seq<(u8, u8, u32)>) -> bool {
        &&& ranges.len() >= 1
        &&& ranges[0].0 == 0
        &&& ranges[ranges.len() - 1].1 == 255
        &&& forall|i: int|
            0 <= i < ranges.len() ==> {
                &&& (#[trigger] ranges[i]).0 <= ranges[i].1
                &&& forall|b: int|
                    ranges[i].0 <= b <= ranges[i].1 ==> #[trigger] self.transitions@[b]
                        == ranges[i].2
            }
        &&& forall|i: int|
            0 <= i < ranges.len() - 1 ==> {
                &&& (#[trigger] ranges[i]).1 + 1 == ranges[i + 1].0
                &&& ranges[i].2 != ranges[i + 1].2
            }
    }

    /// The transitions on the bytes below `upto`, collapsed into ranges of
    /// consecutive bytes with a common target: the ranges for the bytes
    /// before the last, with the last byte added to the last range or as a
    /// range of its own.
    pub open spec fn runs(&self, upto: int) -> Seq<(u8, u8, u32)>
        decreases upto,
    {
        if upto <= 0 {
            Seq::empty()
        } else {
            let before = self.runs(upto - 1);
            let b = (upto - 1) as u8;
            let target = self.transitions@[upto - 1];
            if before.len() > 0 && before.last().2 == target {
                before.drop_last().push((before.last().0, b, target))
            } else {
                before.push((b, b, target))
            }
        }
    }

    /// The transitions collapsed into maximal byte ranges `(first, last,
    /// target)`.
    pub fn sparse_transitions(&self) -> (ranges: Vec<(u8, u8, u32)>)
        requires
            self.transitions@.len() == ALPHABET_SIZE,
        ensures
            self.is_sparse_form(ranges@),
            ranges@ == self.runs(ALPHABET_SIZE as int),
    {
        let mut ranges: Vec<(u8, u8, u32)> = Vec::new();
        let mut cur_start: u8 = 0;
        let mut cur_next: u32 = self.transitions[0];
        let mut i: usize = 1;
        proof {
            reveal_with_fuel(DFAState::runs, 2);
            assert(self.runs(1) =~= ranges@.push((cur_start, 0u8, cur_next)));
        }
        while i < ALPHABET_SIZE
            invariant
                1 <= i <= ALPHABET_SIZE,
                self.transitions@.len() == ALPHABET_SIZE,
                self.runs(i as int) == ranges@.push((cur_start, (i - 1) as u8, cur_next)),
                (cur_start as int) < i,
                forall|b: int| cur_start <= b < i ==> #[trigger] self.transitions@[b] == cur_next,
                ranges@.len() == 0 ==> cur_start == 0,
                ranges@.len() > 0 ==> {
                    &&& ranges@[0].0 == 0
                    &&& ranges@[ranges@.len() - 1].1 + 1 == cur_start
                    &&& ranges@[ranges@.len() - 1].2 != cur_next
                },
                forall|k: int|
                    0 <= k < ranges@.len() ==> {
                        &&& (#[trigger] ranges@[k]).0 <= ranges@[k].1
                        &&& forall|b: int|
                            ranges@[k].0 <= b <= ranges@[k].1 ==> #[trigger] self.transitions@[b]
                                == ranges@[k].2
                    },
                forall|k: int|
                    0 <= k < ranges@.len() - 1 ==> {
                        &&& (#[trigger] ranges@[k]).1 + 1 == ranges@[k + 1].0
                        &&& ranges@[k].2 != ranges@[k + 1].2
                    },
            decreases ALPHABET_SIZE - i,
        {
            let next_id = self.transitions[i];
            let ghost before = self.runs(i as int);
            let ghost held = ranges@;
            let ghost open_run = (cur_start, (i - 1) as u8, cur_next);
            if next_id != cur_next {
                ranges.push((cur_start, (i - 1) as u8, cur_next));
                cur_start = i as u8;
                cur_next = next_id;
            }
            proof {
                assert(before == held.push(open_run));
                assert(before.last() == open_run);
                assert(before.drop_last() =~= held);
                assert(self.runs(i + 1) =~= ranges@.push((cur_start, i as u8, cur_next)));
            }
            i += 1;
        }
        ranges.push((cur_start, 255, cur_next));
        ranges
    }
}

impl DFA {
    /// The number of states.
    pub open spec fn len(&self) -> int {
        self.states@.len() as int
    }

    /// Every transition leads to a state of the table, the start state is
    /// one of them, and state 0 is dead: it does not accept and loops to
    /// itself on every byte.
    pub open spec fn wf(&self) -> bool {
        &&& 1 <= self.len() <= u32::MAX
        &&& (self.start as int) < self.len()
        &&& forall|q: int|
            0 <= q < self.len() ==> (#[trigger] self.states@[q]).transitions@.len()
                == ALPHABET_SIZE
        &&& forall|q: int, b: int|
            0 <= q < self.len() && 0 <= b < 256 ==> (#[trigger] self.states@[q].transitions@[b]
                as int) < self.len()
        &&& !self.states@[0].is_match
        &&& forall|b: int| 0 <= b < 256 ==> #[trigger] self.states@[0].transitions@[b] == DFA_DEAD
    }

    /// The state reached from `q` on byte `b`.
    pub open spec fn step(&self, q: int, b: u8) -> int {
        self.states@[q].transitions@[b as int] as int
    }

    /// The state reached from `q` after reading all of `input`.
    pub open spec fn run(&self, q: int, input: Seq<u8>) -> int
        decreases input.len(),
    {
        if input.len() == 0 {
            q
        } else {
            self.step(self.run(q, input.drop_last()), input.last())
        }
    }

    /// Whether reading `input` from `q` ends in an accepting state.
    pub open spec fn accepts_from(&self, q: int, input: Seq<u8>) -> bool {
        self.states@[self.run(q, input)].is_match
    }

    /// Whether reading `input` from the start state ends in an accepting
    /// state.
    pub open spec fn accepts(&self, input: Seq<u8>) -> bool {
        self.accepts_from(self.start as int, input)
    }

    /// Whether reading some input from the start state ends in state `q`.
    pub open spec fn reaches(&self, q: int) -> bool {
        exists|input: Seq<u8>| self.run(self.start as int, input) == q
    }

    /// Whether every state but the dead state is reached from the start
    /// state.
    pub open spec fn all_reached(&self) -> bool {
        forall|q: int| 1 <= q < self.len() ==> #[trigger] self.reaches(q)
    }

    /// Whether `end` is what a search of `input` reports: the length of the
    /// longest non-empty prefix that the automaton accepts, if there is one.
    pub open spec fn is_longest_match(&self, input: Seq<u8>, end: Option<usize>) -> bool {
        match end {
            Some(e) => {
                &&& 1 <= e <= input.len()
                &&& self.accepts(input.take(e as int))
                &&& forall|j: int| e < j <= input.len() ==> !#[trigger] self.accepts(input.take(j))
            },
            None => forall|j: int| 1 <= j <= input.len() ==> !#[trigger] self.accepts(
                input.take(j),
            ),
        }
    }

    /// Whether some state accepts.
    pub open spec fn has_match(&self) -> bool {
        exists|q: int| 0 <= q < self.len() && (#[trigger] self.states@[q]).is_match
    }

    /// Two states are distinguishable when some input is accepted from one
    /// of them and not from the other.
    pub open spec fn distinguishable(&self, p: int, q: int) -> bool {
        exists|input: Seq<u8>| self.accepts_from(p, input) != self.accepts_from(q, input)
    }

    /// Running stays inside the table.
    pub proof fn lemma_run_in_range(&self, q: int, input: Seq<u8>)
        requires
            self.wf(),
            0 <= q < self.len(),
        ensures
            0 <= self.run(q, input) < self.len(),
        decreases input.len(),
    {
        if input.len() > 0 {
            self.lemma_run_in_range(q, input.drop_last());
            let r = self.run(q, input.drop_last());
            assert((self.states@[r].transitions@[input.last() as int] as int) < self.len());
        }
    }

    /// Whatever is read from the dead state, the automaton stays there and
    /// does not accept.
    pub proof fn lemma_dead_absorbs(&self, input: Seq<u8>)
        requires
            self.wf(),
        ensures
            self.run(DFA_DEAD as int, input) == DFA_DEAD,
            !self.accepts_from(DFA_DEAD as int, input),
        decreases input.len(),
    {
        if input.len() > 0 {
            self.lemma_dead_absorbs(input.drop_last());
            assert(self.states@[0].transitions@[input.last() as int] == DFA_DEAD);
        }
    }

    /// Reading `a` and then `b` is reading their concatenation.
    pub proof fn lemma_run_concat(&self, q: int, a: Seq<u8>, b: Seq<u8>)
        ensures
            self.run(q, a + b) == self.run(self.run(q, a), b),
        decreases b.len(),
    {
        if b.len() == 0 {
            assert(a + b =~= a);
        } else {
            self.lemma_run_concat(q, a, b.drop_last());
            assert((a + b).drop_last() =~= a + b.drop_last());
            assert((a + b).last() == b.last());
        }
    }

    /// An automaton with the dead state alone, which is also its start.
    pub fn empty() -> (dfa: DFA)
        ensures
            dfa.wf(),
            dfa.len() == 1,
            dfa.start == DFA_DEAD,
    {
        let mut states: Vec<DFAState> = Vec::new();
        states.push(DFAState::empty());
        DFA { states, start: DFA_DEAD }
    }

    /// Whether some state accepts.
    pub fn has_match_state(&self) -> (found: bool)
        ensures
            found == self.has_match(),
    {
        let mut q: usize = 0;
        while q < self.states.len()
            invariant
                q <= self.states@.len(),
                forall|k: int| 0 <= k < q ==> !(#[trigger] self.states@[k]).is_match,
            decreases self.states@.len() - q,
        {
            if self.states[q].is_match {
                return true;
            }
            q += 1;
        }
        false
    }

    /// Makes byte `b` lead from `from` to `to`.
    pub fn set_transition(&mut self, from: u32, b: u8, to: u32)
        requires
            (from as int) < old(self).len(),
            old(self).states@[from as int].transitions@.len() == ALPHABET_SIZE,
        ensures
            final(self).start == old(self).start,
            final(self).len() == old(self).len(),
            forall|q: int|
                0 <= q < old(self).len() && q != from ==> final(self).states@[q] == old(self).states@[q],
            final(self).states@[from as int].is_match == old(self).states@[from as int].is_match,
            final(self).states@[from as int].transitions@ == old(self).states@[from as int].transitions@.update(b as int, to),
    {
        self.states[from as usize].transitions[b as usize] = to;
    }

    /// Walks `bytes` from the start state and reports where the longest
    /// non-empty accepted prefix ends. The walk stops early once the dead
    /// state is reached.
    pub fn find(&self, bytes: &[u8]) -> (end: Option<usize>)
        requires
            self.wf(),
        ensures
            self.is_longest_match(bytes@, end),
    {
        let mut state = self.start;
        let mut last_match: Option<usize> = None;
        let mut i: usize = 0;
        while i < bytes.len()
            invariant
                self.wf(),
                i <= bytes@.len(),
                state as int == self.run(self.start as int, bytes@.take(i as int)),
                (state as int) < self.len(),
                self.is_longest_match(bytes@.take(i as int), last_match),
            decreases bytes@.len() - i,
        {
            let ghost prefix = bytes@.take(i as int);
            let ghost next_prefix = bytes@.take(i + 1);
            let b = bytes[i];
            assert(next_prefix.drop_last() =~= prefix);
            assert(next_prefix.last() == b);
            state = self.states[state as usize].transitions[b as usize];
            assert(state as int == self.run(self.start as int, next_prefix));
            proof {
                assert forall|j: int| 0 <= j <= i implies #[trigger] next_prefix.take(j)
                    == prefix.take(j) by {
                    assert(next_prefix.take(j) =~= prefix.take(j));
                }
                assert(next_prefix.take(i + 1) =~= next_prefix);
            }
            if state == DFA_DEAD {
                proof {
                    assert forall|j: int| i < j <= bytes@.len() implies !#[trigger] self.accepts(
                        bytes@.take(j),
                    ) by {
                        let rest = bytes@.subrange(i + 1, j);
                        assert(bytes@.take(j) =~= next_prefix + rest);
                        self.lemma_run_concat(self.start as int, next_prefix, rest);
                        self.lemma_dead_absorbs(rest);
                    }
                    assert forall|j: int| 0 <= j <= i implies #[trigger] bytes@.take(j)
                        == prefix.take(j) by {
                        assert(bytes@.take(j) =~= prefix.take(j));
                    }
                }
                return last_match;
            } else if self.states[state as usize].is_match {
                last_match = Some(i + 1);
            }
            i += 1;
        }
        assert(bytes@.take(i as int) =~= bytes@);
        last_match
    }
}

} // verus!
