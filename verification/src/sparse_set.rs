//! A sparse set of small integers with constant-time insertion, membership
//! test and clearing, which remembers the order of insertion.

use vstd::prelude::*;

verus! {

/// A set of identifiers below a fixed bound.
///
/// `dense` lists the members in the order in which they were inserted and
/// `sparse` maps a member to its position in `dense`.
pub struct SparseSet {
    dense: Vec<u32>,
    sparse: Vec<u32>,
}

impl SparseSet {
    /// The members in insertion order.
    pub closed spec fn view(&self) -> Seq<u32> {
        self.dense@
    }

    /// The exclusive upper bound on members, fixed at construction.
    pub closed spec fn bound(&self) -> nat {
        self.sparse@.len()
    }

    /// The representation invariant: no member repeats, every member is below
    /// the bound and is found again through `sparse`.
    pub closed spec fn wf(&self) -> bool {
        &&& self.sparse@.len() <= u32::MAX
        &&& self.dense@.len() <= self.sparse@.len()
        &&& forall|i: int|
            0 <= i < self.dense@.len() ==> {
                &&& (#[trigger] self.dense@[i] as int) < self.sparse@.len()
                &&& self.sparse@[self.dense@[i] as int] as int == i
            }
    }

    /// Members are pairwise distinct and below the bound.
    pub proof fn lemma_distinct(&self)
        requires
            self.wf(),
        ensures
            self@.no_duplicates(),
            self@.len() <= self.bound(),
            forall|i: int| 0 <= i < self@.len() ==> (#[trigger] self@[i] as nat) < self.bound(),
    {
    }

    /// An empty set that can hold the values `0..size`.
    pub fn new(size: usize) -> (set: SparseSet)
        requires
            size <= u32::MAX,
        ensures
            set.wf(),
            set@.len() == 0,
            set.bound() == size,
    {
        let mut sparse: Vec<u32> = Vec::new();
        let mut i: usize = 0;
        while i < size
            invariant
                i <= size,
                sparse@.len() == i,
            decreases size - i,
        {
            sparse.push(0);
            i += 1;
        }
        SparseSet { dense: Vec::new(), sparse }
    }

    /// The number of members.
    pub fn len(&self) -> (n: usize)
        ensures
            n == self@.len(),
    {
        self.dense.len()
    }

    /// Whether the set has no members.
    pub fn is_empty(&self) -> (b: bool)
        ensures
            b == (self@.len() == 0),
    {
        self.dense.len() == 0
    }

    /// The largest number of members the set can hold.
    pub fn capacity(&self) -> (n: usize)
        ensures
            n == self.bound(),
    {
        self.sparse.len()
    }

    /// The member inserted at position `i`.
    pub fn get(&self, i: usize) -> (value: u32)
        requires
            i < self@.len(),
        ensures
            value == self@[i as int],
    {
        self.dense[i]
    }

    /// Whether `value` is a member.
    pub fn contains(&self, value: u32) -> (b: bool)
        requires
            self.wf(),
        ensures
            b == self@.contains(value),
    {
        if value as usize >= self.sparse.len() {
            return false;
        }
        let i = self.sparse[value as usize];
        let b = (i as usize) < self.dense.len() && self.dense[i as usize] == value;
        proof {
            if !b && self@.contains(value) {
                let j = choose|j: int| 0 <= j < self.dense@.len() && self.dense@[j] == value;
                assert(self.sparse@[self.dense@[j] as int] as int == j);
            }
        }
        b
    }

    /// Adds `value` as the last member, unless it is a member already.
    pub fn insert(&mut self, value: u32)
        requires
            old(self).wf(),
            (value as nat) < old(self).bound(),
        ensures
            final(self).wf(),
            final(self).bound() == old(self).bound(),
            final(self)@ == if old(self)@.contains(value) {
                old(self)@
            } else {
                old(self)@.push(value)
            },
    {
        if self.contains(value) {
            return ;
        }
        let i = self.dense.len();
        proof {
            self.lemma_distinct();
            lemma_injective_below(self.dense@, self.sparse@.len(), value);
        }
        self.dense.push(value);
        self.sparse[value as usize] = i as u32;
        proof {
            assert forall|k: int| 0 <= k < self.dense@.len() implies {
                &&& (#[trigger] self.dense@[k] as int) < self.sparse@.len()
                &&& self.sparse@[self.dense@[k] as int] as int == k
            } by {
                if k < i {
                    assert(old(self).dense@[k] == self.dense@[k]);
                    assert(old(self).dense@[k] != value);
                }
            }
        }
    }

    /// Removes every member; the bound is kept.
    pub fn clear(&mut self)
        ensures
            final(self)@.len() == 0,
            final(self).bound() == old(self).bound(),
            old(self).wf() ==> final(self).wf(),
    {
        self.dense.clear();
    }
}

/// A duplicate-free sequence of values below `bound` that misses one such
/// value is shorter than `bound`.
pub proof fn lemma_injective_below(s: Seq<u32>, bound: nat, missing: u32)
    requires
        s.no_duplicates(),
        forall|i: int| 0 <= i < s.len() ==> (#[trigger] s[i] as nat) < bound,
        (missing as nat) < bound,
        !s.contains(missing),
        bound <= u32::MAX + 1,
    ensures
        s.len() < bound,
{
    let full = Set::new(|x: u32| (x as nat) < bound);
    let members = s.to_set();
    assert(members.subset_of(full.remove(missing))) by {
        assert forall|x: u32| members.contains(x) implies full.remove(missing).contains(x) by {
            let i = choose|i: int| 0 <= i < s.len() && s[i] == x;
            assert((s[i] as nat) < bound);
        }
    }
    lemma_below_finite(bound);
    s.unique_seq_to_set();
    vstd::set_lib::lemma_len_subset(members, full.remove(missing));
}

/// A duplicate-free sequence of values below `bound` has at most `bound`
/// entries.
pub proof fn lemma_distinct_bounded(s: Seq<u32>, bound: nat)
    requires
        s.no_duplicates(),
        forall|i: int| 0 <= i < s.len() ==> (#[trigger] s[i] as nat) < bound,
        bound <= u32::MAX + 1,
    ensures
        s.len() <= bound,
{
    let full = Set::new(|x: u32| (x as nat) < bound);
    let members = s.to_set();
    assert(members.subset_of(full)) by {
        assert forall|x: u32| members.contains(x) implies full.contains(x) by {
            let i = choose|i: int| 0 <= i < s.len() && s[i] == x;
            assert((s[i] as nat) < bound);
        }
    }
    lemma_below_finite(bound);
    s.unique_seq_to_set();
    vstd::set_lib::lemma_len_subset(members, full);
}

/// The values below `bound` form a finite set with `bound` elements, as far
/// as `bound` fits the value type.
pub proof fn lemma_below_finite(bound: nat)
    requires
        bound <= u32::MAX + 1,
    ensures
        Set::new(|x: u32| (x as nat) < bound).finite(),
        Set::new(|x: u32| (x as nat) < bound).len() == bound,
    decreases bound,
{
    let cur = Set::new(|x: u32| (x as nat) < bound);
    if bound == 0 {
        assert(cur =~= Set::<u32>::empty());
    } else {
        let prev = Set::new(|x: u32| (x as nat) < (bound - 1) as nat);
        lemma_below_finite((bound - 1) as nat);
        assert(cur =~= prev.insert((bound - 1) as u32));
    }
}

} // verus!
