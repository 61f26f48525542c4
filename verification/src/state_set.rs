//! Sets of automaton state identifiers, kept as lists that are put into
//! increasing order before they are combined.

use vstd::prelude::*;

verus! {

/// Whether `s` is strictly increasing.
pub open spec fn strictly_increasing(s: Seq<u32>) -> bool {
    forall|i: int, j: int| 0 <= i < j < s.len() ==> s[i] < s[j]
}

/// Whether `s` is non-decreasing.
pub open spec fn non_decreasing(s: Seq<u32>) -> bool {
    forall|i: int, j: int| 0 <= i <= j < s.len() ==> s[i] <= s[j]
}

/// Two strictly increasing sequences with the same elements are equal.
pub proof fn lemma_increasing_unique(a: Seq<u32>, b: Seq<u32>)
    requires
        strictly_increasing(a),
        strictly_increasing(b),
        forall|x: u32| a.contains(x) <==> b.contains(x),
    ensures
        a == b,
    decreases a.len(),
{
    if a.len() == 0 {
        if b.len() > 0 {
            assert(b.contains(b[0]));
        }
        assert(a =~= b);
    } else {
        let la = a.last();
        assert(a.contains(la));
        assert(b.contains(la));
        let k = choose|k: int| 0 <= k < b.len() && b[k] == la;
        if k < b.len() - 1 {
            let lb = b.last();
            assert(b.contains(lb));
            let m = choose|m: int| 0 <= m < a.len() && a[m] == lb;
            assert(b[k] < b[b.len() - 1]);
        }
        assert forall|x: u32| a.drop_last().contains(x) <==> b.drop_last().contains(x) by {
            if a.drop_last().contains(x) {
                let i = choose|i: int| 0 <= i < a.len() - 1 && a.drop_last()[i] == x;
                assert(a[i] < a[a.len() - 1]);
                assert(a.contains(x));
                let j = choose|j: int| 0 <= j < b.len() && b[j] == x;
                assert(b.drop_last()[j] == x);
            }
            if b.drop_last().contains(x) {
                let i = choose|i: int| 0 <= i < b.len() - 1 && b.drop_last()[i] == x;
                assert(b[i] < b[b.len() - 1]);
                assert(b.contains(x));
                let j = choose|j: int| 0 <= j < a.len() && a[j] == x;
                assert(a.drop_last()[j] == x);
            }
        }
        lemma_increasing_unique(a.drop_last(), b.drop_last());
        assert(a =~= a.drop_last().push(la));
        assert(b =~= b.drop_last().push(la));
    }
}

/// Sorts with the standard library's slice `sort`: afterwards the list holds
/// the same values as often as before, in non-decreasing order.
#[verifier::external_body]
fn sort_ids(ids: &mut Vec<u32>)
    ensures
        final(ids)@.to_multiset() == old(ids)@.to_multiset(),
        non_decreasing(final(ids)@),
{
    ids.sort();
}

/// A set of state identifiers.
pub struct StateSet {
    ids: Vec<u32>,
}

impl StateSet {
    /// The identifiers in the order in which they are held.
    pub closed spec fn view(&self) -> Seq<u32> {
        self.ids@
    }

    /// Whether the identifiers are held in strictly increasing order.
    pub open spec fn is_canonical(&self) -> bool {
        strictly_increasing(self@)
    }

    /// The set without members.
    pub fn empty() -> (set: StateSet)
        ensures
            set@.len() == 0,
    {
        StateSet { ids: Vec::new() }
    }

    /// Appends `id`.
    pub fn add(&mut self, id: u32)
        ensures
            final(self)@ == old(self)@.push(id),
    {
        self.ids.push(id);
    }

    /// The identifier held first, which is the least one of a canonical set.
    pub fn first(&self) -> (id: u32)
        requires
            self@.len() > 0,
        ensures
            id == self@[0],
    {
        self.ids[0]
    }

    /// The identifier held at position `i`.
    pub fn get(&self, i: usize) -> (id: u32)
        requires
            i < self@.len(),
        ensures
            id == self@[i as int],
    {
        self.ids[i]
    }

    /// Puts the identifiers into increasing order and drops repetitions.
    pub fn canonicalize(&mut self)
        ensures
            final(self).is_canonical(),
            forall|x: u32| #[trigger] final(self)@.contains(x) ==> old(self)@.contains(x),
            forall|x: u32| #[trigger] old(self)@.contains(x) ==> final(self)@.contains(x),
    {
        sort_ids(&mut self.ids);
        proof {
            broadcast use vstd::seq_lib::to_multiset_contains;

            assert forall|x: u32| self.ids@.contains(x) <==> old(self)@.contains(x) by {
                assert(self.ids@.to_multiset().count(x) == old(self).ids@.to_multiset().count(x));
            }
        }
        let ghost sorted = self.ids@;
        let mut out: Vec<u32> = Vec::new();
        let mut i: usize = 0;
        while i < self.ids.len()
            invariant
                i <= self.ids@.len(),
                self.ids@ == sorted,
                non_decreasing(sorted),
                strictly_increasing(out@),
                out@.len() <= i,
                i > 0 ==> out@.len() > 0 && out@[out@.len() - 1] == sorted[i - 1],
                forall|k: int| 0 <= k < out@.len() ==> sorted.contains(#[trigger] out@[k]),
                forall|k: int| 0 <= k < i ==> out@.contains(#[trigger] sorted[k]),
            decreases self.ids@.len() - i,
        {
            let id = self.ids[i];
            let ghost prev = out@;
            if out.len() == 0 || out[out.len() - 1] != id {
                out.push(id);
                proof {
                    assert forall|a: int, b: int| 0 <= a < b < out@.len() implies out@[a]
                        < out@[b] by {
                        if b == out@.len() - 1 {
                            assert(sorted.contains(prev[a]));
                            assert(prev[a] <= prev[prev.len() - 1]);
                        }
                    }
                    assert forall|k: int| 0 <= k <= i implies out@.contains(
                        #[trigger] sorted[k],
                    ) by {
                        if k < i {
                            let w = choose|w: int| 0 <= w < prev.len() && prev[w] == sorted[k];
                            assert(out@[w] == sorted[k]);
                        } else {
                            assert(out@[out@.len() - 1] == sorted[k]);
                        }
                    }
                }
            } else {
                proof {
                    assert(out@[out@.len() - 1] == sorted[i as int]);
                }
            }
            i += 1;
        }
        self.ids = out;
        proof {
            assert forall|x: u32| self@.contains(x) <==> sorted.contains(x) by {
                if sorted.contains(x) {
                    let k = choose|k: int| 0 <= k < sorted.len() && sorted[k] == x;
                    assert(out@.contains(sorted[k]));
                }
            }
        }
    }

    /// Drops every member.
    pub fn clear(&mut self)
        ensures
            final(self)@.len() == 0,
    {
        self.ids.clear();
    }

    /// The number of identifiers held.
    pub fn len(&self) -> (n: usize)
        ensures
            n == self@.len(),
    {
        self.ids.len()
    }

    /// Whether no identifier is held.
    pub fn is_empty(&self) -> (b: bool)
        ensures
            b == (self@.len() == 0),
    {
        self.ids.len() == 0
    }

    /// A copy that shares nothing with this set.
    pub fn deep_clone(&self) -> (copy: StateSet)
        ensures
            copy@ == self@,
    {
        let mut ids: Vec<u32> = Vec::new();
        let mut i: usize = 0;
        while i < self.ids.len()
            invariant
                i <= self.ids@.len(),
                ids@ == self.ids@.take(i as int),
            decreases self.ids@.len() - i,
        {
            ids.push(self.ids[i]);
            i += 1;
            assert(ids@ =~= self.ids@.take(i as int));
        }
        assert(self.ids@.take(i as int) =~= self.ids@);
        StateSet { ids }
    }

    /// Whether both sets hold the same identifiers in the same order.
    pub fn same_as(&self, other: &StateSet) -> (b: bool)
        ensures
            b == (self@ == other@),
    {
        if self.ids.len() != other.ids.len() {
            return false;
        }
        let mut i: usize = 0;
        while i < self.ids.len()
            invariant
                i <= self.ids@.len(),
                self.ids@.len() == other.ids@.len(),
                forall|k: int| 0 <= k < i ==> self.ids@[k] == other.ids@[k],
            decreases self.ids@.len() - i,
        {
            if self.ids[i] != other.ids[i] {
                return false;
            }
            i += 1;
        }
        assert(self.ids@ =~= other.ids@);
        true
    }

    /// The identifiers held by both sets, found by walking the two lists
    /// side by side. For canonical sets this is their intersection, again
    /// canonical.
    pub fn intersection(&self, other: &StateSet) -> (both: StateSet)
        ensures
            forall|k: int|
                0 <= k < both@.len() ==> self@.contains(#[trigger] both@[k]) && other@.contains(
                    both@[k],
                ),
            self.is_canonical() && other.is_canonical() ==> {
                &&& both.is_canonical()
                &&& forall|x: u32| both@.contains(x) <==> self@.contains(x) && other@.contains(x)
            },
    {
        let ghost a = self.ids@;
        let ghost b = other.ids@;
        let ghost canon = strictly_increasing(a) && strictly_increasing(b);
        let mut out: Vec<u32> = Vec::new();
        let mut i: usize = 0;
        let mut j: usize = 0;
        while i < self.ids.len() && j < other.ids.len()
            invariant
                i <= a.len(),
                j <= b.len(),
                a == self.ids@,
                b == other.ids@,
                canon == (strictly_increasing(a) && strictly_increasing(b)),
                forall|k: int|
                    0 <= k < out@.len() ==> a.contains(#[trigger] out@[k]) && b.contains(out@[k]),
                canon ==> strictly_increasing(out@),
                canon ==> forall|k: int, ii: int|
                    0 <= k < out@.len() && i <= ii < a.len() ==> out@[k] < a[ii],
                canon ==> forall|ii: int|
                    0 <= ii < i && b.contains(#[trigger] a[ii]) ==> out@.contains(a[ii]),
                canon ==> forall|jj: int|
                    0 <= jj < j && a.contains(#[trigger] b[jj]) ==> out@.contains(b[jj]),
                canon ==> forall|ii: int, jj: int| 0 <= ii < i && j <= jj < b.len() ==> a[ii] < b[jj],
                canon ==> forall|ii: int, jj: int| 0 <= jj < j && i <= ii < a.len() ==> b[jj] < a[ii],
            decreases (a.len() - i) + (b.len() - j),
        {
            let x = self.ids[i];
            let y = other.ids[j];
            let ghost prev = out@;
            if x == y {
                out.push(x);
                i += 1;
                j += 1;
                proof {
                    assert(a[i - 1] == x && b[j - 1] == x);
                    assert forall|k: int| 0 <= k < prev.len() implies out@[k] == prev[k] by {}
                    assert(out@[out@.len() - 1] == x);
                    if canon {
                        assert forall|ii: int| 0 <= ii < i && b.contains(#[trigger] a[ii]) implies out@.contains(a[ii]) by {
                            if ii < i - 1 {
                                let w = choose|w: int| 0 <= w < prev.len() && prev[w] == a[ii];
                                assert(out@[w] == a[ii]);
                            }
                        }
                        assert forall|jj: int| 0 <= jj < j && a.contains(#[trigger] b[jj]) implies out@.contains(b[jj]) by {
                            if jj < j - 1 {
                                let w = choose|w: int| 0 <= w < prev.len() && prev[w] == b[jj];
                                assert(out@[w] == b[jj]);
                            }
                        }
                    }
                }
            } else if x < y {
                i += 1;
                proof {
                    if canon && b.contains(x) {
                        let jj = choose|jj: int| 0 <= jj < b.len() && b[jj] == x;
                        if jj < j {
                            assert(b[jj] < a[i - 1]);
                        } else if jj > j {
                            assert(b[j as int] < b[jj]);
                        }
                    }
                }
            } else {
                j += 1;
                proof {
                    if canon && a.contains(y) {
                        let ii = choose|ii: int| 0 <= ii < a.len() && a[ii] == y;
                        if ii < i {
                            assert(a[ii] < b[j - 1]);
                        } else if ii > i {
                            assert(a[i as int] < a[ii]);
                        }
                    }
                }
            }
        }
        let both = StateSet { ids: out };
        proof {
            if canon {
                assert forall|x: u32| a.contains(x) && b.contains(x) implies both@.contains(x) by {
                    let ii = choose|ii: int| 0 <= ii < a.len() && a[ii] == x;
                    let jj = choose|jj: int| 0 <= jj < b.len() && b[jj] == x;
                    if ii < i {
                        assert(b.contains(a[ii]));
                    } else {
                        assert(jj < j);
                        assert(a.contains(b[jj]));
                    }
                }
            }
        }
        both
    }

    /// The identifiers of this set that a side-by-side walk does not find in
    /// `other`. For canonical sets this is their difference, again
    /// canonical.
    pub fn subtract(&self, other: &StateSet) -> (rest: StateSet)
        ensures
            forall|k: int| 0 <= k < rest@.len() ==> self@.contains(#[trigger] rest@[k]),
            self.is_canonical() && other.is_canonical() ==> {
                &&& rest.is_canonical()
                &&& forall|x: u32| rest@.contains(x) <==> self@.contains(x) && !other@.contains(x)
            },
    {
        let ghost a = self.ids@;
        let ghost b = other.ids@;
        let ghost canon = strictly_increasing(a) && strictly_increasing(b);
        let mut out: Vec<u32> = Vec::new();
        let mut i: usize = 0;
        let mut j: usize = 0;
        while i < self.ids.len()
            invariant
                i <= a.len(),
                j <= b.len(),
                a == self.ids@,
                b == other.ids@,
                canon == (strictly_increasing(a) && strictly_increasing(b)),
                forall|k: int| 0 <= k < out@.len() ==> a.contains(#[trigger] out@[k]),
                canon ==> forall|k: int| 0 <= k < out@.len() ==> !b.contains(#[trigger] out@[k]),
                canon ==> strictly_increasing(out@),
                canon ==> forall|k: int, ii: int|
                    0 <= k < out@.len() && i <= ii < a.len() ==> out@[k] < a[ii],
                canon ==> forall|ii: int|
                    0 <= ii < i && !b.contains(#[trigger] a[ii]) ==> out@.contains(a[ii]),
                canon ==> forall|ii: int, jj: int| 0 <= ii < i && j <= jj < b.len() ==> a[ii] < b[jj],
                canon ==> forall|ii: int, jj: int| 0 <= jj < j && i <= ii < a.len() ==> b[jj] < a[ii],
            decreases (a.len() - i) + (b.len() - j),
        {
            let x = self.ids[i];
            let ghost prev = out@;
            if j >= other.ids.len() || x < other.ids[j] {
                out.push(x);
                i += 1;
                proof {
                    assert forall|k: int| 0 <= k < prev.len() implies out@[k] == prev[k] by {}
                    assert(out@[out@.len() - 1] == x);
                    assert(a[i - 1] == x);
                    if canon {
                        if b.contains(x) {
                            let jj = choose|jj: int| 0 <= jj < b.len() && b[jj] == x;
                            if jj < j {
                                assert(b[jj] < a[i - 1]);
                            } else if jj > j {
                                assert(b[j as int] < b[jj]);
                            }
                        }
                        assert forall|ii: int| 0 <= ii < i && !b.contains(#[trigger] a[ii]) implies out@.contains(a[ii]) by {
                            if ii < i - 1 {
                                let w = choose|w: int| 0 <= w < prev.len() && prev[w] == a[ii];
                                assert(out@[w] == a[ii]);
                            }
                        }
                    }
                }
            } else if x == other.ids[j] {
                i += 1;
                j += 1;
                proof {
                    assert(b.contains(b[j - 1]));
                }
            } else {
                j += 1;
            }
        }
        let rest = StateSet { ids: out };
        proof {
            if canon {
                assert forall|x: u32| a.contains(x) && !b.contains(x) implies rest@.contains(x) by {
                    let ii = choose|ii: int| 0 <= ii < a.len() && a[ii] == x;
                    assert(!b.contains(a[ii]));
                }
            }
        }
        rest
    }
}

} // verus!
