//! The tables of the case mappings of the codepoints.

use vstd::prelude::*;
use vstd::string::*;
use crate::error::Error;
use crate::util::{is_last_places, last_places};
use crate::writer::{keys_increase, Writer, WriterModel};

verus! {

/// The simple case mappings of a codepoint: to one codepoint each, where
/// there is one.
pub struct SimpleCase {
    pub codepoint: u32,
    pub lowercase: Option<u32>,
    pub uppercase: Option<u32>,
    pub titlecase: Option<u32>,
}

/// The special case mappings of a codepoint: to some codepoints each,
/// where there are any. They may hold only where conditions are met.
pub struct SpecialCase {
    pub codepoint: u32,
    pub lowercase: Vec<u32>,
    pub titlecase: Vec<u32>,
    pub uppercase: Vec<u32>,
    pub conditional: bool,
}

/// A case.
#[derive(Clone, Copy, PartialEq, Eq, Structural)]
pub enum Case {
    Lower,
    Upper,
    Title,
}

/// The simple mapping of the row to the case.
pub open spec fn simple_of(row: SimpleCase, case: Case) -> Option<u32> {
    match case {
        Case::Lower => row.lowercase,
        Case::Upper => row.uppercase,
        Case::Title => row.titlecase,
    }
}

/// The special mapping of the row to the case.
pub open spec fn special_of(row: SpecialCase, case: Case) -> Seq<u32> {
    match case {
        Case::Lower => row.lowercase@,
        Case::Upper => row.uppercase@,
        Case::Title => row.titlecase@,
    }
}

/// The entries that the first `upto` rows give the case: one for each
/// row that has a simple mapping to it.
pub open spec fn simple_entries(rows: Seq<SimpleCase>, case: Case, upto: int) -> Seq<(u32, Seq<u32>)>
    decreases upto,
{
    if upto <= 0 {
        Seq::empty()
    } else {
        let before = simple_entries(rows, case, upto - 1);
        match simple_of(rows[upto - 1], case) {
            Some(to) => before.push((rows[upto - 1].codepoint, seq![to])),
            None => before,
        }
    }
}

/// The entries that the first `upto` rows give the case: one for each
/// row without conditions that has a special mapping to it.
pub open spec fn special_entries(rows: Seq<SpecialCase>, case: Case, upto: int) -> Seq<
    (u32, Seq<u32>),
>
    decreases upto,
{
    if upto <= 0 {
        Seq::empty()
    } else {
        let before = special_entries(rows, case, upto - 1);
        let row = rows[upto - 1];
        if !row.conditional && special_of(row, case).len() > 0 {
            before.push((row.codepoint, special_of(row, case)))
        } else {
            before
        }
    }
}

/// The entries of the case in the order in which they are put into its
/// map: those of the simple mappings and, unless only these are asked
/// for, behind them those of the special mappings.
pub open spec fn case_entries(
    rows: Seq<SimpleCase>,
    special: Seq<SpecialCase>,
    case: Case,
    simple: bool,
) -> Seq<(u32, Seq<u32>)> {
    simple_entries(rows, case, rows.len() as int) + if simple {
        Seq::empty()
    } else {
        special_entries(special, case, special.len() as int)
    }
}

/// The entries as mathematical values.
pub open spec fn entry_values(list: Seq<(u32, Vec<u32>)>) -> Seq<(u32, Seq<u32>)> {
    list.map_values(|e: (u32, Vec<u32>)| (e.0, e.1@))
}

/// The codepoints of the entries.
pub open spec fn entry_codepoints(entries: Seq<(u32, Seq<u32>)>) -> Seq<u32> {
    entries.map_values(|e: (u32, Seq<u32>)| e.0)
}

/// Whether `table` gives each codepoint of `entries` once, in increasing
/// order, with what the last entry of the codepoint maps it to.
pub open spec fn is_mapping(entries: Seq<(u32, Seq<u32>)>, table: Seq<(u32, Vec<u32>)>) -> bool {
    exists|last: Seq<(u32, u64)>| #[trigger]
        is_last_places(entry_codepoints(entries), last) && table.len()
            == last.len() && forall|k: int|
            0 <= k < last.len() ==> (#[trigger] table[k]).0 == last[k].0 && table[k].1@
                == entries[last[k].1 as int].1
}

/// The entries of the case in the order in which they are put into its
/// map.
fn entries_of(rows: &Vec<SimpleCase>, special: &Vec<SpecialCase>, case: Case, simple: bool) -> (list:
    Vec<(u32, Vec<u32>)>)
    ensures
        entry_values(list@) == case_entries(rows@, special@, case, simple),
{
    let mut list: Vec<(u32, Vec<u32>)> = Vec::new();
    let mut i: usize = 0;
    assert(entry_values(list@) =~= simple_entries(rows@, case, 0));
    while i < rows.len()
        invariant
            i <= rows@.len(),
            entry_values(list@) == simple_entries(rows@, case, i as int),
        decreases rows@.len() - i,
    {
        let to = match case {
            Case::Lower => rows[i].lowercase,
            Case::Upper => rows[i].uppercase,
            Case::Title => rows[i].titlecase,
        };
        match to {
            Some(to) => {
                let ghost before = list@;
                let mut one: Vec<u32> = Vec::new();
                one.push(to);
                assert(one@ =~= seq![to]);
                list.push((rows[i].codepoint, one));
                assert(entry_values(list@) =~= entry_values(before).push(
                    (rows@[i as int].codepoint, seq![to]),
                ));
            },
            None => {},
        }
        i += 1;
    }
    let ghost first = list@;
    if !simple {
        let mut k: usize = 0;
        assert(entry_values(list@) =~= entry_values(first) + special_entries(special@, case, 0));
        while k < special.len()
            invariant
                k <= special@.len(),
                entry_values(list@) == entry_values(first) + special_entries(
                    special@,
                    case,
                    k as int,
                ),
            decreases special@.len() - k,
        {
            let to = match case {
                Case::Lower => &special[k].lowercase,
                Case::Upper => &special[k].uppercase,
                Case::Title => &special[k].titlecase,
            };
            if !special[k].conditional && to.len() > 0 {
                let ghost before = list@;
                let copy = copy_of(to);
                list.push((special[k].codepoint, copy));
                assert(entry_values(list@) =~= entry_values(before).push(
                    (special@[k as int].codepoint, to@),
                ));
                assert(entry_values(list@) =~= entry_values(first) + special_entries(
                    special@,
                    case,
                    k + 1,
                ));
            }
            k += 1;
        }
    } else {
        assert(entry_values(list@) =~= entry_values(first) + Seq::<(u32, Seq<u32>)>::empty());
    }
    list
}

/// A copy of the codepoints.
fn copy_of(list: &Vec<u32>) -> (copy: Vec<u32>)
    ensures
        copy@ == list@,
{
    let mut copy: Vec<u32> = Vec::new();
    let mut i: usize = 0;
    while i < list.len()
        invariant
            i <= list@.len(),
            copy@ == list@.take(i as int),
        decreases list@.len() - i,
    {
        copy.push(list[i]);
        i += 1;
        assert(copy@ =~= list@.take(i as int));
    }
    assert(list@.take(i as int) =~= list@);
    copy
}

/// The map of the case: each codepoint that has a mapping to the case
/// once, in increasing order. A special mapping without conditions
/// counts before a simple one, unless only the simple ones are asked
/// for; of several rows of one codepoint the last counts.
pub fn mapping(rows: &Vec<SimpleCase>, special: &Vec<SpecialCase>, case: Case, simple: bool) -> (table:
    Vec<(u32, Vec<u32>)>)
    ensures
        is_mapping(case_entries(rows@, special@, case, simple), table@),
        keys_increase(table@),
        forall|k: int| 0 <= k < table@.len() ==> (#[trigger] table@[k]).1@.len() > 0,
{
    let list = entries_of(rows, special, case, simple);
    let ghost entries = case_entries(rows@, special@, case, simple);
    let ghost want = entry_codepoints(entries);
    let mut cps: Vec<u32> = Vec::new();
    let mut i: usize = 0;
    while i < list.len()
        invariant
            i <= list@.len(),
            entry_values(list@) == entries,
            want == entry_codepoints(entries),
            cps@ == want.take(i as int),
        decreases list@.len() - i,
    {
        assert(entry_values(list@)[i as int].0 == list@[i as int].0);
        cps.push(list[i].0);
        i += 1;
        assert(cps@ =~= want.take(i as int));
    }
    assert(want.take(i as int) =~= want);
    proof {
        lemma_entries_hold(rows@, special@, case, simple);
    }
    let last = last_places(&cps);
    let mut table: Vec<(u32, Vec<u32>)> = Vec::new();
    let mut k: usize = 0;
    while k < last.len()
        invariant
            k <= last@.len(),
            entry_values(list@) == entries,
            want == entry_codepoints(entries),
            is_last_places(want, last@),
            forall|j: int| 0 <= j < entries.len() ==> (#[trigger] entries[j]).1.len() > 0,
            table@.len() == k,
            forall|j: int|
                0 <= j < k ==> (#[trigger] table@[j]).0 == last@[j].0 && table@[j].1@
                    == entries[last@[j].1 as int].1,
        decreases last@.len() - k,
    {
        let (cp, at) = last[k];
        assert(want.len() == list@.len());
        assert(at < list.len());
        let place = at as usize;
        assert(entry_values(list@)[place as int].1 == list@[place as int].1@);
        let to = copy_of(&list[place].1);
        table.push((cp, to));
        k += 1;
    }
    table
}

/// Every entry of a case maps its codepoint to something.
pub proof fn lemma_entries_hold(
    rows: Seq<SimpleCase>,
    special: Seq<SpecialCase>,
    case: Case,
    simple: bool,
)
    ensures
        forall|j: int|
            0 <= j < case_entries(rows, special, case, simple).len() ==> (#[trigger] case_entries(
                rows,
                special,
                case,
                simple,
            )[j]).1.len() > 0,
{
    lemma_simple_hold(rows, case, rows.len() as int);
    lemma_special_hold(special, case, special.len() as int);
}

/// Every entry of a simple mapping maps its codepoint to one codepoint.
pub proof fn lemma_simple_hold(rows: Seq<SimpleCase>, case: Case, upto: int)
    ensures
        forall|j: int|
            0 <= j < simple_entries(rows, case, upto).len() ==> (#[trigger] simple_entries(
                rows,
                case,
                upto,
            )[j]).1.len() == 1,
    decreases upto,
{
    if upto > 0 {
        lemma_simple_hold(rows, case, upto - 1);
        let before = simple_entries(rows, case, upto - 1);
        let now = simple_entries(rows, case, upto);
        assert forall|j: int| 0 <= j < now.len() implies (#[trigger] now[j]).1.len() == 1 by {
            if j < before.len() {
                assert(now[j] == before[j]);
            }
        }
    }
}

/// Every entry of a special mapping maps its codepoint to something.
pub proof fn lemma_special_hold(rows: Seq<SpecialCase>, case: Case, upto: int)
    ensures
        forall|j: int|
            0 <= j < special_entries(rows, case, upto).len() ==> (#[trigger] special_entries(
                rows,
                case,
                upto,
            )[j]).1.len() > 0,
    decreases upto,
{
    if upto > 0 {
        lemma_special_hold(rows, case, upto - 1);
        let before = special_entries(rows, case, upto - 1);
        let now = special_entries(rows, case, upto);
        assert forall|j: int| 0 <= j < now.len() implies (#[trigger] now[j]).1.len() > 0 by {
            if j < before.len() {
                assert(now[j] == before[j]);
            }
        }
    }
}

/// Each codepoint of the table with the first codepoint that it is mapped
/// to.
pub open spec fn firsts(table: Seq<(u32, Vec<u32>)>) -> Seq<(u32, u32)> {
    table.map_values(|e: (u32, Vec<u32>)| (e.0, e.1@[0]))
}

/// Each codepoint of the table with the first codepoint that it is mapped
/// to.
fn firsts_of(table: &Vec<(u32, Vec<u32>)>) -> (pairs: Vec<(u32, u32)>)
    requires
        forall|k: int| 0 <= k < table@.len() ==> (#[trigger] table@[k]).1@.len() > 0,
    ensures
        pairs@ == firsts(table@),
{
    let mut pairs: Vec<(u32, u32)> = Vec::new();
    let mut i: usize = 0;
    while i < table.len()
        invariant
            i <= table@.len(),
            forall|k: int| 0 <= k < table@.len() ==> (#[trigger] table@[k]).1@.len() > 0,
            pairs@ == firsts(table@).take(i as int),
        decreases table@.len() - i,
    {
        assert(table@[i as int].1@.len() > 0);
        pairs.push((table[i].0, table[i].1[0]));
        i += 1;
        assert(pairs@ =~= firsts(table@).take(i as int));
    }
    assert(firsts(table@).take(i as int) =~= firsts(table@));
    pairs
}

/// Whether `after` is `before` with the three tables of the case
/// mappings. With `simple`, they are tables from codepoints to
/// codepoints: `LOWER` with the first codepoints of `upper`, `UPPER` with
/// those of `lower` and `TITLE` with those of `title`. Without, they are
/// tables from codepoints to lists of codepoints: `LOWER` with `lower`,
/// and `UPPER` and `TITLE` with `upper`.
pub open spec fn cases_written(
    before: WriterModel,
    after: WriterModel,
    lower: Seq<(u32, Vec<u32>)>,
    upper: Seq<(u32, Vec<u32>)>,
    title: Seq<(u32, Vec<u32>)>,
    simple: bool,
) -> bool {
    if simple {
        after == before.codepoint_to_codepoint("LOWER"@, firsts(upper)).codepoint_to_codepoint(
            "UPPER"@,
            firsts(lower),
        ).codepoint_to_codepoint("TITLE"@, firsts(title))
    } else {
        after == before.codepoint_to_codepoints("LOWER"@, lower).codepoint_to_codepoints(
            "UPPER"@,
            upper,
        ).codepoint_to_codepoints("TITLE"@, upper)
    }
}

/// Writes three tables from codepoints to codepoints: `LOWER` with the
/// first codepoints of `upper`, `UPPER` with those of `lower` and `TITLE`
/// with those of `title`.
fn write_simple(
    wtr: &mut Writer,
    lower: &Vec<(u32, Vec<u32>)>,
    upper: &Vec<(u32, Vec<u32>)>,
    title: &Vec<(u32, Vec<u32>)>,
) -> (r: Result<(), Error>)
    requires
        forall|k: int| 0 <= k < lower@.len() ==> (#[trigger] lower@[k]).1@.len() > 0,
        forall|k: int| 0 <= k < upper@.len() ==> (#[trigger] upper@[k]).1@.len() > 0,
        forall|k: int| 0 <= k < title@.len() ==> (#[trigger] title@[k]).1@.len() > 0,
    ensures
        r is Ok ==> cases_written(old(wtr)@, final(wtr)@, lower@, upper@, title@, true),
        old(wtr)@.opts.fst_dir is None ==> r is Ok,
{
    let first = firsts_of(upper);
    let second = firsts_of(lower);
    let third = firsts_of(title);
    match wtr.codepoint_to_codepoint("LOWER", &first) {
        Err(e) => {
            return Err(e);
        },
        Ok(()) => {},
    }
    match wtr.codepoint_to_codepoint("UPPER", &second) {
        Err(e) => {
            return Err(e);
        },
        Ok(()) => {},
    }
    match wtr.codepoint_to_codepoint("TITLE", &third) {
        Err(e) => {
            return Err(e);
        },
        Ok(()) => {},
    }
    Ok(())
}

/// Writes three tables from codepoints to lists of codepoints: `LOWER`
/// with `lower`, and `UPPER` and `TITLE` with `upper`.
fn write_full(wtr: &mut Writer, lower: &Vec<(u32, Vec<u32>)>, upper: &Vec<(u32, Vec<u32>)>) -> (r:
    Result<(), Error>)
    requires
        keys_increase(lower@),
        keys_increase(upper@),
    ensures
        r is Ok ==> cases_written(old(wtr)@, final(wtr)@, lower@, upper@, upper@, false),
        old(wtr)@.opts.fst_dir is None ==> r is Ok,
        old(wtr)@.opts.fst_dir is Some ==> r is Err,
{
    match wtr.codepoint_to_codepoints("LOWER", lower) {
        Err(e) => {
            return Err(e);
        },
        Ok(()) => {},
    }
    match wtr.codepoint_to_codepoints("UPPER", upper) {
        Err(e) => {
            return Err(e);
        },
        Ok(()) => {},
    }
    match wtr.codepoint_to_codepoints("TITLE", upper) {
        Err(e) => {
            return Err(e);
        },
        Ok(()) => {},
    }
    Ok(())
}

/// Whether `lower`, `upper` and `title` are the maps of the three cases.
pub open spec fn are_mappings(
    rows: Seq<SimpleCase>,
    special: Seq<SpecialCase>,
    simple: bool,
    lower: Seq<(u32, Vec<u32>)>,
    upper: Seq<(u32, Vec<u32>)>,
    title: Seq<(u32, Vec<u32>)>,
) -> bool {
    &&& is_mapping(case_entries(rows, special, Case::Lower, simple), lower)
    &&& is_mapping(case_entries(rows, special, Case::Upper, simple), upper)
    &&& is_mapping(case_entries(rows, special, Case::Title, simple), title)
}

/// Writes the tables of the case mappings. With `simple`, three tables
/// from codepoints to codepoints: `LOWER` with the simple mappings to
/// upper case, `UPPER` with those to lower case and `TITLE` with those to
/// title case. Without, three tables from codepoints to lists of
/// codepoints, in which an unconditional special mapping counts before a
/// simple one: `LOWER` with the mappings to lower case, and `UPPER` and
/// `TITLE` with those to upper case. The tables from codepoints to lists
/// are not written as transducers.
pub fn command(rows: &Vec<SimpleCase>, special: &Vec<SpecialCase>, simple: bool, wtr: &mut Writer) -> (r:
    Result<(), Error>)
    ensures
        r is Ok ==> exists|lower: Seq<(u32, Vec<u32>)>, upper: Seq<(u32, Vec<u32>)>, title: Seq<
            (u32, Vec<u32>),
        >| #[trigger]
            are_mappings(rows@, special@, simple, lower, upper, title) && cases_written(
                old(wtr)@,
                final(wtr)@,
                lower,
                upper,
                title,
                simple,
            ),
        old(wtr)@.opts.fst_dir is None ==> r is Ok,
        !simple && old(wtr)@.opts.fst_dir is Some ==> r is Err,
{
    let lower = mapping(rows, special, Case::Lower, simple);
    let upper = mapping(rows, special, Case::Upper, simple);
    let title = mapping(rows, special, Case::Title, simple);
    let r = if simple {
        write_simple(wtr, &lower, &upper, &title)
    } else {
        write_full(wtr, &lower, &upper)
    };
    proof {
        if r is Ok {
            assert(are_mappings(rows@, special@, simple, lower@, upper@, title@));
            if !simple {
                assert(cases_written(old(wtr)@, wtr@, lower@, upper@, title@, false));
            }
        }
    }
    r
}

} // verus!
