//! The table of the short names of the Jamo.

use vstd::prelude::*;
use vstd::string::*;
use crate::error::Error;
use crate::util::{is_last_places, last_places};
use crate::writer::Writer;

verus! {

/// The table with its names borrowed.
pub fn table_ref<'a>(table: &'a [(u32, String)]) -> (refs: Vec<(u32, &'a str)>)
    ensures
        refs@.len() == table@.len(),
        forall|i: int|
            0 <= i < table@.len() ==> (#[trigger] refs@[i]).0 == table@[i].0 && refs@[i].1@
                == table@[i].1@,
{
    let mut refs: Vec<(u32, &'a str)> = Vec::new();
    let mut i: usize = 0;
    while i < table.len()
        invariant
            i <= table@.len(),
            refs@.len() == i,
            forall|k: int|
                0 <= k < i ==> (#[trigger] refs@[k]).0 == table@[k].0 && refs@[k].1@
                    == table@[k].1@,
        decreases table@.len() - i,
    {
        refs.push((table[i].0, table[i].1.as_str()));
        i += 1;
    }
    refs
}

/// The codepoints of the rows.
pub open spec fn row_codepoints(rows: Seq<(u32, String)>) -> Seq<u32> {
    rows.map_values(|row: (u32, String)| row.0)
}

/// Whether `table` gives each codepoint of `rows` once, in increasing
/// order, with the short name of the last row of the codepoint.
pub open spec fn is_name_table(rows: Seq<(u32, String)>, table: Seq<(u32, String)>) -> bool {
    exists|last: Seq<(u32, u64)>| #[trigger]
        is_last_places(row_codepoints(rows), last) && table.len() == last.len() && forall|k: int|
            0 <= k < last.len() ==> (#[trigger] table[k]).0 == last[k].0 && table[k].1@
                == rows[last[k].1 as int].1@
}

/// The table from the codepoints of the Jamo to their short names: each
/// codepoint of `rows` once, in increasing order; of several rows of one
/// codepoint the last counts.
pub fn name_table(rows: &Vec<(u32, String)>) -> (table: Vec<(u32, String)>)
    ensures
        is_name_table(rows@, table@),
{
    let ghost want = row_codepoints(rows@);
    let mut cps: Vec<u32> = Vec::new();
    let mut i: usize = 0;
    while i < rows.len()
        invariant
            i <= rows@.len(),
            want == row_codepoints(rows@),
            cps@ == want.take(i as int),
        decreases rows@.len() - i,
    {
        cps.push(rows[i].0);
        i += 1;
        assert(cps@ =~= want.take(i as int));
    }
    assert(want.take(i as int) =~= want);
    let last = last_places(&cps);
    let mut table: Vec<(u32, String)> = Vec::new();
    let mut k: usize = 0;
    while k < last.len()
        invariant
            k <= last@.len(),
            want == row_codepoints(rows@),
            is_last_places(want, last@),
            table@.len() == k,
            forall|j: int|
                0 <= j < k ==> (#[trigger] table@[j]).0 == last@[j].0 && table@[j].1@
                    == rows@[last@[j].1 as int].1@,
        decreases last@.len() - k,
    {
        let (cp, at) = last[k];
        assert(want.len() == rows@.len());
        assert(at < rows@.len());
        assert(at < rows.len());
        let place = at as usize;
        assert(place as int == last@[k as int].1 as int);
        let short = rows[place].1.clone();
        assert(short@ == rows@[last@[k as int].1 as int].1@);
        table.push((cp, short));
        k += 1;
    }
    table
}

/// Writes the table `name` from the codepoints of the Jamo to their short
/// names.
pub fn command(rows: &Vec<(u32, String)>, name: &str, wtr: &mut Writer) -> (r: Result<(), Error>)
    ensures
        r is Ok ==> exists|table: Seq<(u32, String)>| #[trigger]
            is_name_table(rows@, table) && final(wtr)@ == old(wtr)@.codepoint_to_string(
                name@,
                table,
            ),
        old(wtr)@.opts.emit_c ==> r is Err,
        old(wtr)@.opts.fst_dir is None && !old(wtr)@.opts.emit_c ==> r is Ok,
{
    let table = name_table(rows);
    wtr.codepoint_to_string(name, &table)
}

} // verus!
