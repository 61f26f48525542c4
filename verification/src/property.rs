//! Tables of the codepoints that have each value of a property.

use vstd::prelude::*;
use vstd::string::*;
use crate::bidi_class::{first_range_with, lemma_first_range, lookup_unassigned};
use crate::error::Error;
use crate::text::{sort_strings, text_le, texts, texts_increase};
use crate::ucd_parse::common::MAX_CODEPOINT;
use crate::tables::enum_pairs;
use crate::util::{is_merged, sorted_of};
use crate::writer::{is_sorted_names, Writer, WriterModel};

verus! {

/// Whether a row gives the codepoint `cp` the value `name`.
pub open spec fn in_rows(rows: Seq<(u32, u32, String)>, name: Seq<char>, cp: u32) -> bool {
    exists|i: int| 0 <= i < rows.len() && (#[trigger] rows[i]).2@ == name && rows[i].0 <= cp <= rows[i].1
}

/// Whether a group has the value `name`.
pub open spec fn has_group(groups: Seq<(String, Vec<u32>)>, name: Seq<char>) -> bool {
    exists|g: int| 0 <= g < groups.len() && (#[trigger] groups[g]).0@ == name
}

/// Whether a row has the value `name`.
pub open spec fn has_row(rows: Seq<(u32, u32, String)>, name: Seq<char>) -> bool {
    exists|i: int| 0 <= i < rows.len() && (#[trigger] rows[i]).2@ == name
}

/// Whether `groups` holds one group for each value of `rows`, with the
/// codepoints that the rows give that value.
pub open spec fn is_grouping(rows: Seq<(u32, u32, String)>, groups: Seq<(String, Vec<u32>)>) -> bool {
    &&& forall|a: int, b: int|
        0 <= a < groups.len() && 0 <= b < groups.len() && a != b ==> (#[trigger] groups[a]).0@ != (
        #[trigger] groups[b]).0@
    &&& forall|g: int, cp: u32|
        0 <= g < groups.len() ==> (#[trigger] groups[g].1@.contains(cp) <==> in_rows(
            rows,
            groups[g].0@,
            cp,
        ))
    &&& forall|i: int| 0 <= i < rows.len() ==> has_group(groups, (#[trigger] rows[i]).2@)
    &&& forall|g: int| 0 <= g < groups.len() ==> has_row(rows, (#[trigger] groups[g]).0@)
}

/// The position of the group with the value `name`, if there is one.
fn find_group(groups: &Vec<(String, Vec<u32>)>, name: &String) -> (at: Option<usize>)
    ensures
        match at {
            Some(g) => g < groups@.len() && groups@[g as int].0@ == name@,
            None => !has_group(groups@, name@),
        },
{
    let mut g: usize = 0;
    while g < groups.len()
        invariant
            g <= groups@.len(),
            forall|k: int| 0 <= k < g ==> (#[trigger] groups@[k]).0@ != name@,
        decreases groups@.len() - g,
    {
        if groups[g].0 == *name {
            return Some(g);
        }
        g += 1;
    }
    None
}

/// Adds the codepoints from `first` to `last` to `set`.
fn add_range(set: &mut Vec<u32>, first: u32, last: u32)
    ensures
        forall|cp: u32|
            final(set)@.contains(cp) <==> old(set)@.contains(cp) || first <= cp <= last,
{
    if first > last {
        return ;
    }
    let mut cp: u32 = first;
    loop
        invariant_except_break
            forall|x: u32| set@.contains(x) <==> old(set)@.contains(x) || first <= x < cp,
        invariant
            first <= cp <= last,
        ensures
            forall|x: u32| set@.contains(x) <==> old(set)@.contains(x) || first <= x <= last,
        decreases last - cp,
    {
        let ghost before = set@;
        set.push(cp);
        proof {
            crate::determinize::lemma_push_contains(before, cp);
        }
        if cp == last {
            break ;
        }
        cp += 1;
    }
}

/// The codepoints of each value: one group for each value of `rows`, in
/// the order in which the values first occur, with the codepoints of all
/// the rows of the value. A row gives the codepoints from its first to
/// its second number its value.
pub fn group_by_value(rows: &Vec<(u32, u32, String)>) -> (groups: Vec<(String, Vec<u32>)>)
    ensures
        is_grouping(rows@, groups@),
{
    let mut groups: Vec<(String, Vec<u32>)> = Vec::new();
    let mut i: usize = 0;
    while i < rows.len()
        invariant
            i <= rows@.len(),
            is_grouping(rows@.take(i as int), groups@),
        decreases rows@.len() - i,
    {
        let ghost done = rows@.take(i as int);
        let ghost more = rows@.take(i + 1);
        let ghost before = groups@;
        let (first, last) = (rows[i].0, rows[i].1);
        let name = rows[i].2.clone();
        let at = match find_group(&groups, &name) {
            Some(g) => g,
            None => {
                groups.push((name, Vec::new()));
                groups.len() - 1
            },
        };
        let ghost middle = groups@;
        let ghost held = groups@[at as int].1@;
        add_range(&mut groups[at].1, first, last);
        proof {
            let row = rows@[i as int];
            assert(more =~= done.push(row));
            assert(groups@.len() == middle.len());
            assert forall|g: int| 0 <= g < groups@.len() implies (#[trigger] groups@[g]).0@
                == middle[g].0@ by {}
            assert forall|g: int| 0 <= g < groups@.len() && g != at implies groups@[g] == middle[g] by {}
            assert forall|a: int, b: int|
                0 <= a < groups@.len() && 0 <= b < groups@.len() && a != b implies (
            #[trigger] groups@[a]).0@ != (#[trigger] groups@[b]).0@ by {
                if a < before.len() && b < before.len() {
                    assert(before[a].0@ != before[b].0@);
                } else if a < before.len() {
                    assert(before[a].0@ != row.2@);
                } else if b < before.len() {
                    assert(before[b].0@ != row.2@);
                }
            }
            assert forall|g: int, cp: u32| 0 <= g < groups@.len() implies (
            #[trigger] groups@[g].1@.contains(cp) <==> in_rows(more, groups@[g].0@, cp)) by {
                let gname = groups@[g].0@;
                if in_rows(more, gname, cp) {
                    let k = choose|k: int|
                        0 <= k < more.len() && (#[trigger] more[k]).2@ == gname && more[k].0 <= cp
                            <= more[k].1;
                    if k < i {
                        assert(done[k] == more[k]);
                        assert(in_rows(done, gname, cp));
                    }
                }
                if in_rows(done, gname, cp) {
                    let k = choose|k: int|
                        0 <= k < done.len() && (#[trigger] done[k]).2@ == gname && done[k].0 <= cp
                            <= done[k].1;
                    assert(more[k] == done[k]);
                }
                if g == at {
                    assert(more[i as int] == row);
                    if g < before.len() {
                        assert(held == before[g].1@);
                        assert(before[g].1@.contains(cp) <==> in_rows(done, gname, cp));
                    } else {
                        assert(held.len() == 0);
                        if in_rows(done, gname, cp) {
                            let k = choose|k: int|
                                0 <= k < done.len() && (#[trigger] done[k]).2@ == gname && done[k].0
                                    <= cp <= done[k].1;
                            assert(has_group(before, done[k].2@));
                        }
                    }
                } else {
                    assert(g < before.len());
                    assert(groups@[g] == before[g]);
                    assert(before[g].1@.contains(cp) <==> in_rows(done, gname, cp));
                    assert(gname != row.2@);
                    if in_rows(more, gname, cp) {
                        let k = choose|k: int|
                            0 <= k < more.len() && (#[trigger] more[k]).2@ == gname && more[k].0
                                <= cp <= more[k].1;
                        assert(k < i);
                    }
                }
            }
            assert forall|k: int| 0 <= k < more.len() implies has_group(
                groups@,
                (#[trigger] more[k]).2@,
            ) by {
                if k < i {
                    assert(done[k] == more[k]);
                    assert(has_group(before, done[k].2@));
                    let g = choose|g: int|
                        0 <= g < before.len() && (#[trigger] before[g]).0@ == done[k].2@;
                    assert(groups@[g].0@ == more[k].2@);
                } else {
                    assert(groups@[at as int].0@ == more[k].2@);
                }
            }
            assert forall|g: int| 0 <= g < groups@.len() implies has_row(
                more,
                (#[trigger] groups@[g]).0@,
            ) by {
                if g < before.len() {
                    assert(has_row(done, before[g].0@));
                    let k = choose|k: int|
                        0 <= k < done.len() && (#[trigger] done[k]).2@ == before[g].0@;
                    assert(more[k].2@ == groups@[g].0@);
                } else {
                    assert(more[i as int].2@ == groups@[g].0@);
                }
            }
        }
        i += 1;
    }
    assert(rows@.take(i as int) =~= rows@);
    groups
}

/// The names of the groups.
pub open spec fn group_names(groups: Seq<(String, Vec<u32>)>) -> Seq<Seq<char>> {
    groups.map_values(|g: (String, Vec<u32>)| g.0@)
}

/// Whether a row gives the codepoint `cp` a value.
pub open spec fn assigned(rows: Seq<(u32, u32, String)>, cp: u32) -> bool {
    exists|i: int| 0 <= i < rows.len() && (#[trigger] rows[i]).0 <= cp <= rows[i].1
}

/// For every codepoint, whether a row gives it a value.
pub fn mark_assigned(rows: &Vec<(u32, u32, String)>) -> (marks: Vec<bool>)
    ensures
        marks@.len() == MAX_CODEPOINT + 1,
        forall|cp: u32| cp <= MAX_CODEPOINT ==> (#[trigger] marks@[cp as int] <==> assigned(rows@, cp)),
{
    let mut marks: Vec<bool> = vec![false; 0x110000];
    let mut i: usize = 0;
    while i < rows.len()
        invariant
            i <= rows@.len(),
            marks@.len() == MAX_CODEPOINT + 1,
            forall|cp: u32|
                cp <= MAX_CODEPOINT ==> (#[trigger] marks@[cp as int] <==> assigned(
                    rows@.take(i as int),
                    cp,
                )),
        decreases rows@.len() - i,
    {
        let ghost done = rows@.take(i as int);
        let ghost more = rows@.take(i + 1);
        let (first, last) = (rows[i].0, rows[i].1);
        let ghost before = marks@;
        let end: u32 = if last > MAX_CODEPOINT {
            MAX_CODEPOINT
        } else {
            last
        };
        if first <= end {
            let mut cp: u32 = first;
            loop
                invariant_except_break
                    forall|x: u32|
                        x <= MAX_CODEPOINT ==> (#[trigger] marks@[x as int] <==> before[x as int]
                            || first <= x < cp),
                invariant
                    first <= cp <= end <= MAX_CODEPOINT,
                    marks@.len() == MAX_CODEPOINT + 1,
                ensures
                    forall|x: u32|
                        x <= MAX_CODEPOINT ==> (#[trigger] marks@[x as int] <==> before[x as int]
                            || first <= x <= end),
                decreases end - cp,
            {
                marks.set(cp as usize, true);
                if cp == end {
                    break ;
                }
                cp += 1;
            }
        }
        proof {
            assert(more =~= done.push(rows@[i as int]));
            assert forall|x: u32| x <= MAX_CODEPOINT implies (#[trigger] marks@[x as int]
                <==> assigned(more, x)) by {
                if assigned(done, x) {
                    let k = choose|k: int|
                        0 <= k < done.len() && (#[trigger] done[k]).0 <= x <= done[k].1;
                    assert(more[k] == done[k]);
                }
                if assigned(more, x) {
                    let k = choose|k: int|
                        0 <= k < more.len() && (#[trigger] more[k]).0 <= x <= more[k].1;
                    if k < i {
                        assert(done[k] == more[k]);
                    }
                }
                if first <= x <= end {
                    assert(more[i as int].0 <= x <= more[i as int].1);
                }
            }
        }
        i += 1;
    }
    assert(rows@.take(i as int) =~= rows@);
    marks
}

/// Whether no two groups have the same value.
pub open spec fn distinct_names(groups: Seq<(String, Vec<u32>)>) -> bool {
    forall|a: int, b: int|
        0 <= a < groups.len() && 0 <= b < groups.len() && a != b ==> (#[trigger] groups[a]).0@ != (
        #[trigger] groups[b]).0@
}

/// The value of a codepoint without a row: that of the first range of
/// `defaults` that holds it, and `fallback` if none holds it.
pub open spec fn default_value(defaults: Seq<(u32, u32, &str)>, fallback: Seq<char>, cp: u32) -> Seq<
    char,
> {
    match first_range_with(defaults, cp, 0) {
        Some(i) => defaults[i].2@,
        None => fallback,
    }
}

/// Adds `cp` to `set`.
fn add_one(set: &mut Vec<u32>, cp: u32)
    ensures
        forall|x: u32| final(set)@.contains(x) <==> old(set)@.contains(x) || x == cp,
{
    let ghost before = set@;
    set.push(cp);
    proof {
        crate::determinize::lemma_push_contains(before, cp);
    }
}

/// Gives every codepoint that `marks` does not hold its default value:
/// the codepoint joins the group of the value of the first range of
/// `defaults` that holds it, and the group of `fallback` if none holds
/// it.
pub fn assign_defaults(
    groups: &mut Vec<(String, Vec<u32>)>,
    marks: &Vec<bool>,
    defaults: &[(u32, u32, &str)],
    fallback: &str,
)
    requires
        marks@.len() == MAX_CODEPOINT + 1,
        distinct_names(old(groups)@),
        has_group(old(groups)@, fallback@),
        forall|d: int| 0 <= d < defaults@.len() ==> has_group(old(groups)@, (#[trigger] defaults@[d]).2@),
    ensures
        final(groups)@.len() == old(groups)@.len(),
        forall|g: int|
            0 <= g < old(groups)@.len() ==> (#[trigger] final(groups)@[g]).0@ == old(groups)@[g].0@,
        forall|g: int, cp: u32|
            0 <= g < old(groups)@.len() ==> (#[trigger] final(groups)@[g].1@.contains(cp) <==> old(
                groups,
            )@[g].1@.contains(cp) || (cp <= MAX_CODEPOINT && !marks@[cp as int] && default_value(
                defaults@,
                fallback@,
                cp,
            ) == old(groups)@[g].0@)),
{
    let fallback_name = String::from_str(fallback);
    let mut cp: u32 = 0;
    loop
        invariant_except_break
            forall|g: int, x: u32|
                0 <= g < groups@.len() ==> (#[trigger] groups@[g].1@.contains(x) <==> old(
                    groups,
                )@[g].1@.contains(x) || (x < cp && !marks@[x as int] && default_value(
                    defaults@,
                    fallback@,
                    x,
                ) == old(groups)@[g].0@)),
        invariant
            cp <= MAX_CODEPOINT,
            marks@.len() == MAX_CODEPOINT + 1,
            fallback_name@ == fallback@,
            groups@.len() == old(groups)@.len(),
            forall|g: int| 0 <= g < groups@.len() ==> (#[trigger] groups@[g]).0@ == old(groups)@[g].0@,
            distinct_names(old(groups)@),
            has_group(old(groups)@, fallback@),
            forall|d: int|
                0 <= d < defaults@.len() ==> has_group(old(groups)@, (#[trigger] defaults@[d]).2@),
        ensures
            forall|g: int, x: u32|
                0 <= g < groups@.len() ==> (#[trigger] groups@[g].1@.contains(x) <==> old(
                    groups,
                )@[g].1@.contains(x) || (x <= MAX_CODEPOINT && !marks@[x as int] && default_value(
                    defaults@,
                    fallback@,
                    x,
                ) == old(groups)@[g].0@)),
        decreases MAX_CODEPOINT - cp,
    {
        if !marks[cp as usize] {
            let ghost before = groups@;
            let ghost value = default_value(defaults@, fallback@, cp);
            let at = match lookup_unassigned(cp, defaults) {
                Some(class) => find_group(groups, &String::from_str(class)),
                None => find_group(groups, &fallback_name),
            };
            proof {
                lemma_first_range(defaults@, cp, 0);
                if at is None {
                    assert(has_group(old(groups)@, value));
                    let g = choose|g: int|
                        0 <= g < old(groups)@.len() && (#[trigger] old(groups)@[g]).0@ == value;
                    assert(groups@[g].0@ == value);
                    assert(has_group(groups@, value));
                }
            }
            match at {
                Some(to) => {
                    add_one(&mut groups[to].1, cp);
                    proof {
                        assert(groups@.len() == before.len());
                        assert forall|g: int| 0 <= g < groups@.len() implies (
                        #[trigger] groups@[g]).0@ == before[g].0@ by {}
                        assert forall|g: int| 0 <= g < groups@.len() && g != to implies groups@[g]
                            == before[g] by {}
                        assert forall|g: int, x: u32| 0 <= g < groups@.len() implies (
                        #[trigger] groups@[g].1@.contains(x) <==> old(groups)@[g].1@.contains(x) || (
                        x <= cp && !marks@[x as int] && default_value(defaults@, fallback@, x) == old(
                            groups,
                        )@[g].0@)) by {
                            assert(before[g].1@.contains(x) <==> old(groups)@[g].1@.contains(x) || (x
                                < cp && !marks@[x as int] && default_value(defaults@, fallback@, x)
                                == old(groups)@[g].0@));
                            if g != to {
                                assert(groups@[g] == before[g]);
                                assert(old(groups)@[g].0@ != old(groups)@[to as int].0@);
                            }
                        }
                    }
                },
                None => {},
            }
        }
        if cp == MAX_CODEPOINT {
            break ;
        }
        cp += 1;
    }
}

/// Whether `groups` holds a group with the value `name` and the
/// codepoints of `set`.
pub open spec fn holds_group(groups: Seq<(String, Vec<u32>)>, name: Seq<char>, set: Seq<u32>) -> bool {
    exists|g: int| 0 <= g < groups.len() && (#[trigger] groups[g]).0@ == name && groups[g].1@ == set
}

/// Whether `sorted` holds the groups of `groups`, in the order of their
/// values.
pub open spec fn is_sorted_groups(
    groups: Seq<(String, Vec<u32>)>,
    sorted: Seq<(String, Vec<u32>)>,
) -> bool {
    &&& sorted.len() == groups.len()
    &&& distinct_names(sorted)
    &&& forall|i: int, j: int|
        0 <= i <= j < sorted.len() ==> text_le((#[trigger] sorted[i]).0@, (#[trigger] sorted[j]).0@)
    &&& forall|i: int|
        0 <= i < sorted.len() ==> holds_group(groups, (#[trigger] sorted[i]).0@, sorted[i].1@)
    &&& forall|g: int|
        0 <= g < groups.len() ==> holds_group(sorted, (#[trigger] groups[g]).0@, groups[g].1@)
}

/// A copy of the codepoints.
fn copy_of(set: &Vec<u32>) -> (copy: Vec<u32>)
    ensures
        copy@ == set@,
{
    let mut copy: Vec<u32> = Vec::new();
    let mut i: usize = 0;
    while i < set.len()
        invariant
            i <= set@.len(),
            copy@ == set@.take(i as int),
        decreases set@.len() - i,
    {
        copy.push(set[i]);
        i += 1;
        assert(copy@ =~= set@.take(i as int));
    }
    assert(set@.take(i as int) =~= set@);
    copy
}

/// The groups in the order of their values.
pub fn sorted_by_name(groups: &Vec<(String, Vec<u32>)>) -> (sorted: Vec<(String, Vec<u32>)>)
    requires
        distinct_names(groups@),
    ensures
        is_sorted_groups(groups@, sorted@),
{
    let ghost want = group_names(groups@);
    let mut names: Vec<String> = Vec::new();
    let mut i: usize = 0;
    while i < groups.len()
        invariant
            i <= groups@.len(),
            want == group_names(groups@),
            texts(names@) == want.take(i as int),
        decreases groups@.len() - i,
    {
        let name = groups[i].0.clone();
        proof {
            crate::writer::lemma_texts_push(names@, name, want, i as int);
        }
        names.push(name);
        i += 1;
    }
    assert(want.take(i as int) =~= want);
    sort_strings(&mut names);
    let ghost order = texts(names@);
    proof {
        want.to_multiset_ensures();
        order.to_multiset_ensures();
        assert(want.no_duplicates()) by {
            assert forall|a: int, b: int| 0 <= a < want.len() && 0 <= b < want.len() && a
                != b implies want[a] != want[b] by {
                assert(groups@[a].0@ != groups@[b].0@);
            }
        }
        want.lemma_multiset_has_no_duplicates();
        order.lemma_multiset_has_no_duplicates_conv();
        assert(order.len() == want.len());
    }
    let mut sorted: Vec<(String, Vec<u32>)> = Vec::new();
    let mut k: usize = 0;
    while k < names.len()
        invariant
            k <= names@.len(),
            order == texts(names@),
            want == group_names(groups@),
            order.to_multiset() == want.to_multiset(),
            sorted@.len() == k,
            forall|j: int|
                0 <= j < k ==> (#[trigger] sorted@[j]).0@ == order[j] && holds_group(
                    groups@,
                    sorted@[j].0@,
                    sorted@[j].1@,
                ),
        decreases names@.len() - k,
    {
        proof {
            want.to_multiset_ensures();
            order.to_multiset_ensures();
            assert(order[k as int] == names@[k as int]@);
            assert(order.contains(order[k as int]));
            assert(order.to_multiset().count(order[k as int]) > 0);
            assert(want.to_multiset().count(order[k as int]) > 0);
            assert(want.contains(order[k as int]));
            let g = choose|g: int| 0 <= g < want.len() && want[g] == order[k as int];
            assert(groups@[g].0@ == names@[k as int]@);
            assert(has_group(groups@, names@[k as int]@));
        }
        let name = names[k].clone();
        let set = match find_group(groups, &names[k]) {
            Some(g) => copy_of(&groups[g].1),
            None => Vec::new(),
        };
        sorted.push((name, set));
        k += 1;
    }
    proof {
        want.to_multiset_ensures();
        order.to_multiset_ensures();
        assert forall|a: int, b: int|
            0 <= a < sorted@.len() && 0 <= b < sorted@.len() && a != b implies (
        #[trigger] sorted@[a]).0@ != (#[trigger] sorted@[b]).0@ by {
            assert(order[a] != order[b]);
        }
        assert forall|a: int, b: int| 0 <= a <= b < sorted@.len() implies text_le(
            (#[trigger] sorted@[a]).0@,
            (#[trigger] sorted@[b]).0@,
        ) by {
            assert(text_le(names@[a]@, names@[b]@));
        }
        assert forall|g: int| 0 <= g < groups@.len() implies holds_group(
            sorted@,
            (#[trigger] groups@[g]).0@,
            groups@[g].1@,
        ) by {
            assert(want[g] == groups@[g].0@);
            assert(want.contains(want[g]));
            assert(want.to_multiset().count(want[g]) > 0);
            assert(order.to_multiset().count(want[g]) > 0);
            assert(order.contains(want[g]));
            let j = choose|j: int| 0 <= j < order.len() && order[j] == want[g];
            assert(holds_group(groups@, sorted@[j].0@, sorted@[j].1@));
            let h = choose|h: int|
                0 <= h < groups@.len() && (#[trigger] groups@[h]).0@ == sorted@[j].0@
                    && groups@[h].1@ == sorted@[j].1@;
            assert(h == g);
        }
    }
    sorted
}

/// Which values are written: those of `included`, or all if there is no
/// such list, but for those of `excluded`.
pub struct Filter {
    pub included: Option<Vec<String>>,
    pub excluded: Option<Vec<String>>,
}

/// Whether `names` holds `name`.
fn holds_name(names: &Vec<String>, name: &String) -> (yes: bool)
    ensures
        yes == texts(names@).contains(name@),
{
    let mut i: usize = 0;
    while i < names.len()
        invariant
            i <= names@.len(),
            forall|k: int| 0 <= k < i ==> texts(names@)[k] != name@,
        decreases names@.len() - i,
    {
        if names[i] == *name {
            assert(texts(names@)[i as int] == name@);
            return true;
        }
        i += 1;
    }
    false
}

impl Filter {
    /// The filter that lets every value pass.
    pub fn all() -> (filter: Filter)
        ensures
            filter.included is None,
            filter.excluded is None,
    {
        Filter { included: None, excluded: None }
    }

    /// Whether the value `name` passes: it is included, or nothing is,
    /// and it is not excluded.
    pub open spec fn passes(&self, name: Seq<char>) -> bool {
        &&& (self.included matches Some(names) ==> texts(names@).contains(name))
        &&& (self.excluded matches Some(names) ==> !texts(names@).contains(name))
    }

    /// Whether the value `name` passes.
    pub fn contains(&self, name: &String) -> (yes: bool)
        ensures
            yes == self.passes(name@),
    {
        let included = match &self.included {
            Some(names) => holds_name(names, name),
            None => true,
        };
        let excluded = match &self.excluded {
            Some(names) => holds_name(names, name),
            None => false,
        };
        included && !excluded
    }
}

/// The names that pass the filter, in their order.
pub open spec fn passing(names: Seq<Seq<char>>, filter: Filter) -> Seq<Seq<char>>
    decreases names.len(),
{
    if names.len() == 0 {
        Seq::empty()
    } else if filter.passes(names.last()) {
        passing(names.drop_last(), filter).push(names.last())
    } else {
        passing(names.drop_last(), filter)
    }
}

/// The writer with the sets of those of the first `upto` groups whose
/// values pass the filter, each written as a set of codepoints under its
/// name.
pub open spec fn passing_written(
    before: WriterModel,
    groups: Seq<(String, Vec<u32>)>,
    filter: Filter,
    upto: int,
) -> WriterModel
    decreases upto,
{
    if upto <= 0 {
        before
    } else if filter.passes(groups[upto - 1].0@) {
        passing_written(before, groups, filter, upto - 1).ranges(
            groups[upto - 1].0@,
            sorted_of(groups[upto - 1].1@),
        )
    } else {
        passing_written(before, groups, filter, upto - 1)
    }
}

/// Whether `after` is `before` with the tables of the groups: a map from
/// ranges of codepoints to the values as the variants of the enumeration
/// `name`, or the list of the names of the values that pass the filter
/// and then the set of each of these values, in the order of `groups`.
pub open spec fn tables_written(
    before: WriterModel,
    after: WriterModel,
    name: Seq<char>,
    groups: Seq<(String, Vec<u32>)>,
    filter: Filter,
    as_enum: bool,
) -> bool {
    if as_enum {
        exists|merged: Seq<(u32, u64)>| #[trigger]
            is_merged(enum_pairs(groups, groups.len() as int), merged) && after
                == before.ranges_to_enum(name, group_names(groups), merged)
    } else {
        exists|names: Seq<Seq<char>>| #[trigger]
            is_sorted_names(passing(group_names(groups), filter), names) && after
                == passing_written(before.names(names), groups, filter, groups.len() as int)
    }
}

/// Writes the tables of the groups: as a map to the variants of the
/// enumeration `name` if `as_enum` is set, which takes the groups in the
/// order of their values and fails if C is written;
/// else the list of the names of the values that pass the filter, and
/// then the set of each of these values, in the order of `groups`.
pub fn write_tables(
    wtr: &mut Writer,
    name: &str,
    groups: &Vec<(String, Vec<u32>)>,
    filter: &Filter,
    as_enum: bool,
) -> (r: Result<(), Error>)
    requires
        as_enum ==> texts_increase(group_names(groups@)),
    ensures
        r is Ok ==> tables_written(old(wtr)@, final(wtr)@, name@, groups@, *filter, as_enum),
        old(wtr)@.opts.fst_dir is None && !old(wtr)@.opts.trie_set && !(as_enum && old(
            wtr,
        )@.opts.emit_c) ==> r is Ok,
        as_enum && old(wtr)@.opts.emit_c ==> r is Err,
{
    if as_enum {
        proof {
            assert(groups@.map_values(|e: (String, Vec<u32>)| e.0@) =~= group_names(groups@));
        }
        return wtr.ranges_to_enum(name, groups);
    }
    let ghost want = group_names(groups@);
    let mut names: Vec<String> = Vec::new();
    let mut i: usize = 0;
    while i < groups.len()
        invariant
            i <= groups@.len(),
            want == group_names(groups@),
            texts(names@) == passing(want.take(i as int), *filter),
        decreases groups@.len() - i,
    {
        proof {
            let next = want.take(i + 1);
            assert(next.drop_last() =~= want.take(i as int));
            assert(next.last() == groups@[i as int].0@);
        }
        if filter.contains(&groups[i].0) {
            let name = groups[i].0.clone();
            proof {
                let held = texts(names@);
                assert(texts(names@.push(name)) =~= held.push(name@));
            }
            names.push(name);
        }
        i += 1;
    }
    assert(want.take(i as int) =~= want);
    match wtr.names(&names) {
        Err(e) => {
            return Err(e);
        },
        Ok(()) => {},
    }
    let ghost start = wtr@;
    let mut k: usize = 0;
    while k < groups.len()
        invariant
            k <= groups@.len(),
            wtr@.opts == start.opts,
            start.opts == old(wtr)@.opts,
            wtr@ == passing_written(start, groups@, *filter, k as int),
        decreases groups@.len() - k,
    {
        if filter.contains(&groups[k].0) {
            match wtr.ranges(groups[k].0.as_str(), &groups[k].1) {
                Err(e) => {
                    return Err(e);
                },
                Ok(()) => {},
            }
        }
        k += 1;
    }
    Ok(())
}

/// Whether `groups` holds one group for each value of `rows`, in the
/// order of the values: the codepoints that the rows give the value, and
/// the codepoints without a row that have it as their default value.
pub open spec fn is_classification(
    rows: Seq<(u32, u32, String)>,
    defaults: Seq<(u32, u32, &str)>,
    fallback: Seq<char>,
    groups: Seq<(String, Vec<u32>)>,
) -> bool {
    &&& distinct_names(groups)
    &&& forall|i: int, j: int|
        0 <= i <= j < groups.len() ==> text_le((#[trigger] groups[i]).0@, (#[trigger] groups[j]).0@)
    &&& forall|g: int, cp: u32|
        0 <= g < groups.len() ==> (#[trigger] groups[g].1@.contains(cp) <==> in_rows(
            rows,
            groups[g].0@,
            cp,
        ) || (cp <= MAX_CODEPOINT && !assigned(rows, cp) && default_value(defaults, fallback, cp)
            == groups[g].0@))
    &&& forall|i: int| 0 <= i < rows.len() ==> has_group(groups, (#[trigger] rows[i]).2@)
    &&& forall|g: int| 0 <= g < groups.len() ==> has_row(rows, (#[trigger] groups[g]).0@)
}

/// Whether a row has the value `name`.
pub fn has_value(rows: &Vec<(u32, u32, String)>, name: &str) -> (yes: bool)
    ensures
        yes == has_row(rows@, name@),
{
    let wanted = String::from_str(name);
    let mut i: usize = 0;
    while i < rows.len()
        invariant
            i <= rows@.len(),
            wanted@ == name@,
            forall|k: int| 0 <= k < i ==> (#[trigger] rows@[k]).2@ != name@,
        decreases rows@.len() - i,
    {
        if rows[i].2 == wanted {
            return true;
        }
        i += 1;
    }
    false
}

/// The codepoints of each value, in the order of the values: those that
/// the rows give the value, and those without a row that have it as their
/// default value, which is the value of the first range of `defaults`
/// that holds the codepoint, and `fallback` if none holds it.
pub fn classify(rows: &Vec<(u32, u32, String)>, defaults: &[(u32, u32, &str)], fallback: &str) -> (groups:
    Vec<(String, Vec<u32>)>)
    requires
        has_row(rows@, fallback@),
        forall|d: int| 0 <= d < defaults@.len() ==> has_row(rows@, (#[trigger] defaults@[d]).2@),
    ensures
        is_classification(rows@, defaults@, fallback@, groups@),
{
    let mut found = group_by_value(rows);
    let ghost first = found@;
    let marks = mark_assigned(rows);
    proof {
        assert(has_group(first, fallback@)) by {
            let i = choose|i: int| 0 <= i < rows@.len() && (#[trigger] rows@[i]).2@ == fallback@;
            assert(has_group(first, rows@[i].2@));
        }
        assert forall|d: int| 0 <= d < defaults@.len() implies has_group(
            first,
            (#[trigger] defaults@[d]).2@,
        ) by {
            let i = choose|i: int|
                0 <= i < rows@.len() && (#[trigger] rows@[i]).2@ == defaults@[d].2@;
            assert(has_group(first, rows@[i].2@));
        }
    }
    assign_defaults(&mut found, &marks, defaults, fallback);
    let groups = sorted_by_name(&found);
    proof {
        assert forall|g: int, cp: u32| 0 <= g < groups@.len() implies (
        #[trigger] groups@[g].1@.contains(cp) <==> in_rows(rows@, groups@[g].0@, cp) || (cp
            <= MAX_CODEPOINT && !assigned(rows@, cp) && default_value(defaults@, fallback@, cp)
            == groups@[g].0@)) by {
            assert(holds_group(found@, groups@[g].0@, groups@[g].1@));
            let h = choose|h: int|
                0 <= h < found@.len() && (#[trigger] found@[h]).0@ == groups@[g].0@ && found@[h].1@
                    == groups@[g].1@;
            assert(found@[h].1@.contains(cp) <==> first[h].1@.contains(cp) || (cp <= MAX_CODEPOINT
                && !marks@[cp as int] && default_value(defaults@, fallback@, cp) == first[h].0@));
            assert(first[h].1@.contains(cp) <==> in_rows(rows@, first[h].0@, cp));
        }
        assert forall|i: int| 0 <= i < rows@.len() implies has_group(
            groups@,
            (#[trigger] rows@[i]).2@,
        ) by {
            assert(has_group(first, rows@[i].2@));
            let h = choose|h: int| 0 <= h < first.len() && (#[trigger] first[h]).0@ == rows@[i].2@;
            assert(holds_group(groups@, found@[h].0@, found@[h].1@));
            let g = choose|g: int|
                0 <= g < groups@.len() && (#[trigger] groups@[g]).0@ == found@[h].0@
                    && groups@[g].1@ == found@[h].1@;
            assert(groups@[g].0@ == rows@[i].2@);
        }
        assert forall|g: int| 0 <= g < groups@.len() implies has_row(
            rows@,
            (#[trigger] groups@[g]).0@,
        ) by {
            assert(holds_group(found@, groups@[g].0@, groups@[g].1@));
            let h = choose|h: int|
                0 <= h < found@.len() && (#[trigger] found@[h]).0@ == groups@[g].0@ && found@[h].1@
                    == groups@[g].1@;
            assert(has_row(rows@, first[h].0@));
        }
    }
    groups
}

/// Whether `after` is `before` with the tables of the values of `rows`:
/// the tables of the groups of the values in their order, with the
/// codepoints that have each value by a row or by default.
pub open spec fn classes_written(
    before: WriterModel,
    after: WriterModel,
    name: Seq<char>,
    rows: Seq<(u32, u32, String)>,
    defaults: Seq<(u32, u32, &str)>,
    fallback: Seq<char>,
    as_enum: bool,
) -> bool {
    exists|groups: Seq<(String, Vec<u32>)>| #[trigger]
        is_classification(rows, defaults, fallback, groups) && tables_written(
            before,
            after,
            name,
            groups,
            (Filter { included: None, excluded: None }),
            as_enum,
        )
}

/// Writes the tables of the values of `rows`, with the codepoints that
/// have each value by a row or by default: as a map to the variants of
/// the enumeration `name` if `as_enum` is set, which fails if C is
/// written; else the list of the values and then the set of the
/// codepoints of each value, in the order of the values.
pub fn write_classes(
    wtr: &mut Writer,
    name: &str,
    rows: &Vec<(u32, u32, String)>,
    defaults: &[(u32, u32, &str)],
    fallback: &str,
    as_enum: bool,
) -> (r: Result<(), Error>)
    requires
        has_row(rows@, fallback@),
        forall|d: int| 0 <= d < defaults@.len() ==> has_row(rows@, (#[trigger] defaults@[d]).2@),
    ensures
        r is Ok ==> classes_written(
            old(wtr)@,
            final(wtr)@,
            name@,
            rows@,
            defaults@,
            fallback@,
            as_enum,
        ),
        old(wtr)@.opts.fst_dir is None && !old(wtr)@.opts.trie_set && !(as_enum && old(
            wtr,
        )@.opts.emit_c) ==> r is Ok,
        as_enum && old(wtr)@.opts.emit_c ==> r is Err,
{
    let groups = classify(rows, defaults, fallback);
    let filter = Filter::all();
    let r = write_tables(wtr, name, &groups, &filter, as_enum);
    proof {
        if r is Ok {
            assert(filter == (Filter { included: None, excluded: None }));
            assert(is_classification(rows@, defaults@, fallback@, groups@));
        }
    }
    r
}

/// Whether `groups` holds one group for each value of `rows`, in the
/// order of the values, with the codepoints that the rows give the
/// value.
pub open spec fn is_ordered_grouping(
    rows: Seq<(u32, u32, String)>,
    groups: Seq<(String, Vec<u32>)>,
) -> bool {
    &&& is_grouping(rows, groups)
    &&& forall|i: int, j: int|
        0 <= i <= j < groups.len() ==> text_le((#[trigger] groups[i]).0@, (#[trigger] groups[j]).0@)
}

/// The codepoints of each value, in the order of the values.
pub fn group_in_order(rows: &Vec<(u32, u32, String)>) -> (groups: Vec<(String, Vec<u32>)>)
    ensures
        is_ordered_grouping(rows@, groups@),
{
    let found = group_by_value(rows);
    let groups = sorted_by_name(&found);
    proof {
        assert forall|g: int, cp: u32| 0 <= g < groups@.len() implies (
        #[trigger] groups@[g].1@.contains(cp) <==> in_rows(rows@, groups@[g].0@, cp)) by {
            assert(holds_group(found@, groups@[g].0@, groups@[g].1@));
            let h = choose|h: int|
                0 <= h < found@.len() && (#[trigger] found@[h]).0@ == groups@[g].0@ && found@[h].1@
                    == groups@[g].1@;
            assert(found@[h].1@.contains(cp) <==> in_rows(rows@, found@[h].0@, cp));
        }
        assert forall|i: int| 0 <= i < rows@.len() implies has_group(
            groups@,
            (#[trigger] rows@[i]).2@,
        ) by {
            assert(has_group(found@, rows@[i].2@));
            let h = choose|h: int| 0 <= h < found@.len() && (#[trigger] found@[h]).0@ == rows@[i].2@;
            assert(holds_group(groups@, found@[h].0@, found@[h].1@));
            let g = choose|g: int|
                0 <= g < groups@.len() && (#[trigger] groups@[g]).0@ == found@[h].0@
                    && groups@[g].1@ == found@[h].1@;
            assert(groups@[g].0@ == rows@[i].2@);
        }
        assert forall|g: int| 0 <= g < groups@.len() implies has_row(
            rows@,
            (#[trigger] groups@[g]).0@,
        ) by {
            assert(holds_group(found@, groups@[g].0@, groups@[g].1@));
            let h = choose|h: int|
                0 <= h < found@.len() && (#[trigger] found@[h]).0@ == groups@[g].0@ && found@[h].1@
                    == groups@[g].1@;
            assert(has_row(rows@, found@[h].0@));
        }
    }
    groups
}

} // verus!
