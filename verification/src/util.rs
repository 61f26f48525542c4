//! Ranges of codepoints.

use vstd::prelude::*;
use crate::state_set::{strictly_increasing, StateSet};

verus! {

/// The ranges of the first `upto` codepoints of `sorted`: the ranges of
/// the codepoints before the last, with the last codepoint added to the
/// last range if it follows on it, or as a range of its own.
pub open spec fn ranges_of(sorted: Seq<u32>, upto: int) -> Seq<(u32, u32)>
    decreases upto,
{
    if upto <= 0 {
        Seq::empty()
    } else {
        let before = ranges_of(sorted, upto - 1);
        let cp = sorted[upto - 1];
        if before.len() > 0 && before.last().1 + 1 == cp {
            before.drop_last().push((before.last().0, cp))
        } else {
            before.push((cp, cp))
        }
    }
}

/// Whether `sorted` holds the codepoints of `codepoints` in strictly
/// increasing order.
pub open spec fn is_sorted_set(codepoints: Seq<u32>, sorted: Seq<u32>) -> bool {
    &&& strictly_increasing(sorted)
    &&& forall|x: u32| #[trigger] sorted.contains(x) ==> codepoints.contains(x)
    &&& forall|x: u32| #[trigger] codepoints.contains(x) ==> sorted.contains(x)
}

/// The codepoints of `codepoints` in strictly increasing order.
pub open spec fn sorted_of(codepoints: Seq<u32>) -> Seq<u32> {
    choose|sorted: Seq<u32>| is_sorted_set(codepoints, sorted)
}

/// There is one way to put codepoints in strictly increasing order.
pub proof fn lemma_sorted_unique(codepoints: Seq<u32>, sorted: Seq<u32>)
    requires
        is_sorted_set(codepoints, sorted),
    ensures
        sorted == sorted_of(codepoints),
{
    let chosen = sorted_of(codepoints);
    assert(is_sorted_set(codepoints, chosen));
    assert forall|x: u32| sorted.contains(x) <==> chosen.contains(x) by {
        if sorted.contains(x) {
            assert(codepoints.contains(x));
        }
        if chosen.contains(x) {
            assert(codepoints.contains(x));
        }
    }
    crate::state_set::lemma_increasing_unique(sorted, chosen);
}

/// The codepoints in increasing order, each once.
pub fn sorted_set(codepoints: &Vec<u32>) -> (sorted: Vec<u32>)
    ensures
        is_sorted_set(codepoints@, sorted@),
        sorted@ == sorted_of(codepoints@),
{
    let mut set = StateSet::empty();
    let mut i: usize = 0;
    while i < codepoints.len()
        invariant
            i <= codepoints@.len(),
            set@ == codepoints@.take(i as int),
        decreases codepoints@.len() - i,
    {
        set.add(codepoints[i]);
        i += 1;
        assert(set@ =~= codepoints@.take(i as int));
    }
    assert(codepoints@.take(i as int) =~= codepoints@);
    set.canonicalize();
    let mut sorted: Vec<u32> = Vec::new();
    let mut k: usize = 0;
    while k < set.len()
        invariant
            k <= set@.len(),
            sorted@ == set@.take(k as int),
        decreases set@.len() - k,
    {
        sorted.push(set.get(k));
        k += 1;
        assert(sorted@ =~= set@.take(k as int));
    }
    assert(set@.take(k as int) =~= set@);
    proof {
        lemma_sorted_unique(codepoints@, sorted@);
    }
    sorted
}

/// The codepoints as ranges: the inclusive ranges, in increasing order,
/// of codepoints that follow one on the other.
pub fn to_ranges(codepoints: &Vec<u32>) -> (ranges: Vec<(u32, u32)>)
    ensures
        ranges@ == ranges_of(sorted_of(codepoints@), sorted_of(codepoints@).len() as int),
{
    let sorted = sorted_set(codepoints);
    let mut ranges: Vec<(u32, u32)> = Vec::new();
    let mut i: usize = 0;
    while i < sorted.len()
        invariant
            i <= sorted@.len(),
            ranges@ == ranges_of(sorted@, i as int),
        decreases sorted@.len() - i,
    {
        range_add(&mut ranges, sorted[i]);
        i += 1;
    }
    ranges
}

/// Adds `codepoint` to the last range if it follows on it, else as a
/// range of its own.
pub fn range_add(ranges: &mut Vec<(u32, u32)>, codepoint: u32)
    ensures
        final(ranges)@ == if old(ranges)@.len() > 0 && old(ranges)@.last().1 + 1 == codepoint {
            old(ranges)@.drop_last().push((old(ranges)@.last().0, codepoint))
        } else {
            old(ranges)@.push((codepoint, codepoint))
        },
{
    let n = ranges.len();
    if n > 0 {
        let (start, end) = ranges[n - 1];
        if end < codepoint && codepoint - end == 1 {
            ranges[n - 1] = (start, codepoint);
            assert(ranges@ =~= old(ranges)@.drop_last().push((start, codepoint)));
            return ;
        }
    }
    ranges.push((codepoint, codepoint));
}

/// The ranges of the first `upto` pairs of a codepoint and a value: the
/// ranges of the pairs before the last, with the last codepoint added to
/// the last range if it follows on it with the same value, or as a range
/// of its own.
pub open spec fn range_values_of(pairs: Seq<(u32, u64)>, upto: int) -> Seq<(u32, u32, u64)>
    decreases upto,
{
    if upto <= 0 {
        Seq::empty()
    } else {
        let before = range_values_of(pairs, upto - 1);
        let (cp, value) = pairs[upto - 1];
        if before.len() > 0 && before.last().1 + 1 == cp && before.last().2 == value {
            before.drop_last().push((before.last().0, cp, value))
        } else {
            before.push((cp, cp, value))
        }
    }
}

/// The pairs of a codepoint and a value as ranges of codepoints that
/// follow one on the other with one value, in the order of the pairs.
pub fn to_range_values(pairs: &Vec<(u32, u64)>) -> (ranges: Vec<(u32, u32, u64)>)
    ensures
        ranges@ == range_values_of(pairs@, pairs@.len() as int),
{
    let mut ranges: Vec<(u32, u32, u64)> = Vec::new();
    let mut i: usize = 0;
    while i < pairs.len()
        invariant
            i <= pairs@.len(),
            ranges@ == range_values_of(pairs@, i as int),
        decreases pairs@.len() - i,
    {
        let (cp, value) = pairs[i];
        let n = ranges.len();
        let ghost before = ranges@;
        let mut added = false;
        if n > 0 {
            let (start, end, held) = ranges[n - 1];
            if end < cp && cp - end == 1 && held == value {
                ranges[n - 1] = (start, cp, value);
                assert(ranges@ =~= before.drop_last().push((start, cp, value)));
                added = true;
            }
        }
        if !added {
            ranges.push((cp, cp, value));
        }
        i += 1;
    }
    ranges
}

/// Whether `a` comes before `b` or is `b`, in the order of pairs: the
/// codepoints decide, and between equal codepoints the numbers.
pub open spec fn pair_le(a: (u32, u64), b: (u32, u64)) -> bool {
    a.0 < b.0 || (a.0 == b.0 && a.1 <= b.1)
}

/// Sorts the pairs with the standard library's slice `sort`: afterwards
/// the list holds the same pairs as often as before, in the order of
/// pairs.
#[verifier::external_body]
fn sort_pairs(pairs: &mut Vec<(u32, u64)>)
    ensures
        final(pairs)@.to_multiset() == old(pairs)@.to_multiset(),
        forall|i: int, j: int|
            0 <= i <= j < final(pairs)@.len() ==> pair_le(final(pairs)@[i], final(pairs)@[j]),
{
    pairs.sort();
}

/// Whether `merged` gives each codepoint of `pairs` once, in increasing
/// order, with the largest number that `pairs` gives it.
pub open spec fn is_merged(pairs: Seq<(u32, u64)>, merged: Seq<(u32, u64)>) -> bool {
    &&& forall|i: int, j: int| 0 <= i < j < merged.len() ==> merged[i].0 < merged[j].0
    &&& forall|k: int| 0 <= k < merged.len() ==> pairs.contains(#[trigger] merged[k])
    &&& forall|j: int| 0 <= j < pairs.len() ==> covers(merged, #[trigger] pairs[j])
}

/// Whether `merged` gives the codepoint of `pair` a number that is no
/// less than that of `pair`.
pub open spec fn covers(merged: Seq<(u32, u64)>, pair: (u32, u64)) -> bool {
    exists|k: int| 0 <= k < merged.len() && (#[trigger] merged[k]).0 == pair.0 && pair.1 <= merged[k].1
}

/// Each codepoint of `pairs` once, in increasing order, with the largest
/// number that `pairs` gives it.
pub fn merge_pairs(pairs: &Vec<(u32, u64)>) -> (merged: Vec<(u32, u64)>)
    ensures
        is_merged(pairs@, merged@),
{
    let mut sorted: Vec<(u32, u64)> = Vec::new();
    let mut i: usize = 0;
    while i < pairs.len()
        invariant
            i <= pairs@.len(),
            sorted@ == pairs@.take(i as int),
        decreases pairs@.len() - i,
    {
        sorted.push(pairs[i]);
        i += 1;
        assert(sorted@ =~= pairs@.take(i as int));
    }
    assert(pairs@.take(i as int) =~= pairs@);
    sort_pairs(&mut sorted);
    proof {
        broadcast use vstd::seq_lib::to_multiset_contains;

        assert forall|x: (u32, u64)| sorted@.contains(x) <==> pairs@.contains(x) by {
            assert(sorted@.to_multiset().count(x) == pairs@.to_multiset().count(x));
        }
    }
    let mut merged: Vec<(u32, u64)> = Vec::new();
    let mut k: usize = 0;
    while k < sorted.len()
        invariant
            k <= sorted@.len(),
            forall|a: int, b: int| 0 <= a <= b < sorted@.len() ==> pair_le(sorted@[a], sorted@[b]),
            forall|a: int, b: int| 0 <= a < b < merged@.len() ==> merged@[a].0 < merged@[b].0,
            forall|a: int| 0 <= a < merged@.len() ==> sorted@.contains(#[trigger] merged@[a]),
            forall|a: int, j: int|
                0 <= a < merged@.len() && k <= j < sorted@.len() ==> (#[trigger] merged@[a]).0 < (
                #[trigger] sorted@[j]).0,
            forall|j: int|
                0 <= j < k ==> (exists|a: int|
                    0 <= a < merged@.len() && (#[trigger] merged@[a]).0 == sorted@[j].0
                        && sorted@[j].1 <= merged@[a].1) || (k < sorted@.len() && (
                #[trigger] sorted@[j]).0 == sorted@[k as int].0),
        decreases sorted@.len() - k,
    {
        let ghost before = merged@;
        let ends_group = k + 1 == sorted.len() || sorted[k + 1].0 != sorted[k].0;
        if ends_group {
            merged.push(sorted[k]);
        }
        proof {
            let cur = sorted@[k as int];
            assert forall|a: int| 0 <= a < merged@.len() implies sorted@.contains(
                #[trigger] merged@[a],
            ) by {
                if a < before.len() {
                    assert(merged@[a] == before[a]);
                }
            }
            assert forall|a: int, j: int|
                0 <= a < merged@.len() && k + 1 <= j < sorted@.len() implies (
            #[trigger] merged@[a]).0 < (#[trigger] sorted@[j]).0 by {
                if a < before.len() {
                    assert(merged@[a] == before[a]);
                } else {
                    assert(pair_le(sorted@[k + 1], sorted@[j]));
                    assert(pair_le(sorted@[k as int], sorted@[k + 1]));
                }
            }
            assert forall|j: int| 0 <= j < k + 1 implies (exists|a: int|
                0 <= a < merged@.len() && (#[trigger] merged@[a]).0 == sorted@[j].0 && sorted@[j].1
                    <= merged@[a].1) || (k + 1 < sorted@.len() && (#[trigger] sorted@[j]).0
                == sorted@[k + 1].0) by {
                if ends_group {
                    let last = before.len() as int;
                    assert(merged@[last] == cur);
                    if j < k {
                        if exists|a: int|
                            0 <= a < before.len() && (#[trigger] before[a]).0 == sorted@[j].0
                                && sorted@[j].1 <= before[a].1 {
                            let a = choose|a: int|
                                0 <= a < before.len() && (#[trigger] before[a]).0 == sorted@[j].0
                                    && sorted@[j].1 <= before[a].1;
                            assert(merged@[a] == before[a]);
                        } else {
                            assert(sorted@[j].0 == cur.0);
                            assert(pair_le(sorted@[j], cur));
                            assert(merged@[last].0 == sorted@[j].0 && sorted@[j].1
                                <= merged@[last].1);
                        }
                    } else {
                        assert(merged@[last].0 == sorted@[j].0 && sorted@[j].1 <= merged@[last].1);
                    }
                } else {
                    if j < k {
                        if exists|a: int|
                            0 <= a < before.len() && (#[trigger] before[a]).0 == sorted@[j].0
                                && sorted@[j].1 <= before[a].1 {
                            let a = choose|a: int|
                                0 <= a < before.len() && (#[trigger] before[a]).0 == sorted@[j].0
                                    && sorted@[j].1 <= before[a].1;
                            assert(merged@[a] == before[a]);
                        }
                    }
                }
            }
            assert forall|a: int, b: int| 0 <= a < b < merged@.len() implies merged@[a].0
                < merged@[b].0 by {
                if b == before.len() {
                    assert(before[a].0 < sorted@[k as int].0);
                }
            }
        }
        k += 1;
    }
    proof {
        assert forall|a: int| 0 <= a < merged@.len() implies pairs@.contains(
            #[trigger] merged@[a],
        ) by {
            assert(sorted@.contains(merged@[a]));
        }
        assert forall|j: int| 0 <= j < pairs@.len() implies covers(merged@, #[trigger] pairs@[j]) by {
            assert(pairs@.contains(pairs@[j]));
            assert(sorted@.contains(pairs@[j]));
            let s = choose|s: int| 0 <= s < sorted@.len() && sorted@[s] == pairs@[j];
            let a = choose|a: int|
                0 <= a < merged@.len() && (#[trigger] merged@[a]).0 == sorted@[s].0 && sorted@[s].1
                    <= merged@[a].1;
            assert(merged@[a].0 == pairs@[j].0 && pairs@[j].1 <= merged@[a].1);
        }
    }
    merged
}

/// The codepoints, each with its place in the list.
pub open spec fn with_places(cps: Seq<u32>) -> Seq<(u32, u64)> {
    Seq::new(cps.len(), |i: int| (cps[i], i as u64))
}

/// Whether `last` gives each codepoint of `cps` once, in increasing
/// order, with the last of its places in `cps`: what an ordered map holds
/// when the codepoints are put into it as keys one after the other.
pub open spec fn is_last_places(cps: Seq<u32>, last: Seq<(u32, u64)>) -> bool {
    &&& is_merged(with_places(cps), last)
    &&& forall|k: int|
        0 <= k < last.len() ==> (#[trigger] last[k]).1 < cps.len() && cps[last[k].1 as int]
            == last[k].0
}

/// Each codepoint of `cps` once, in increasing order, with the last of
/// its places in `cps`.
pub fn last_places(cps: &Vec<u32>) -> (last: Vec<(u32, u64)>)
    ensures
        is_last_places(cps@, last@),
{
    let ghost want = with_places(cps@);
    let mut pairs: Vec<(u32, u64)> = Vec::new();
    let mut i: usize = 0;
    while i < cps.len()
        invariant
            i <= cps@.len(),
            want == with_places(cps@),
            pairs@ == want.take(i as int),
        decreases cps@.len() - i,
    {
        pairs.push((cps[i], i as u64));
        i += 1;
        assert(pairs@ =~= want.take(i as int));
    }
    assert(want.take(i as int) =~= want);
    let last = merge_pairs(&pairs);
    proof {
        assert forall|k: int| 0 <= k < last@.len() implies (#[trigger] last@[k]).1 < cps@.len()
            && cps@[last@[k].1 as int] == last@[k].0 by {
            assert(want.contains(last@[k]));
            let j = choose|j: int| 0 <= j < want.len() && want[j] == last@[k];
            assert(want[j] == (cps@[j], j as u64));
        }
    }
    last
}

} // verus!
