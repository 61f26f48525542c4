//! The table of the mirroring glyphs.

use vstd::prelude::*;
use crate::error::Error;
use crate::ucd_parse::bidi_mirroring_glyph::BidiMirroring;
use crate::util::{covers, is_merged, merge_pairs};
use crate::writer::Writer;

verus! {

/// The pairs of a codepoint and its row number.
pub open spec fn numbered_rows(rows: Seq<BidiMirroring>) -> Seq<(u32, u64)> {
    Seq::new(rows.len(), |i: int| (rows[i].codepoint@, i as u64))
}

/// Whether `table` gives each codepoint of `rows` once, in increasing
/// order, with the mirroring glyph of the last row of the codepoint.
pub open spec fn is_mirror_table(rows: Seq<BidiMirroring>, table: Seq<(u32, u32)>) -> bool {
    exists|last: Seq<(u32, u64)>| #[trigger]
        is_merged(numbered_rows(rows), last) && table.len() == last.len() && forall|k: int|
            0 <= k < last.len() ==> (#[trigger] table[k]).0 == last[k].0 && last[k].1 < rows.len()
                && table[k].1 == rows[last[k].1 as int].bidi_mirroring_glyph@
}

/// The table from codepoints to their mirroring glyphs: each codepoint of
/// `rows` once, in increasing order; of several rows of one codepoint the
/// last counts.
pub fn mirror_table(rows: &Vec<BidiMirroring>) -> (table: Vec<(u32, u32)>)
    ensures
        is_mirror_table(rows@, table@),
{
    let ghost want = numbered_rows(rows@);
    let mut pairs: Vec<(u32, u64)> = Vec::new();
    let mut i: usize = 0;
    while i < rows.len()
        invariant
            i <= rows@.len(),
            want == numbered_rows(rows@),
            pairs@ == want.take(i as int),
        decreases rows@.len() - i,
    {
        pairs.push((rows[i].codepoint.value(), i as u64));
        i += 1;
        assert(pairs@ =~= want.take(i as int));
    }
    assert(want.take(i as int) =~= want);
    let last = merge_pairs(&pairs);
    assert(rows@.len() <= usize::MAX);
    let mut table: Vec<(u32, u32)> = Vec::new();
    let mut k: usize = 0;
    while k < last.len()
        invariant
            k <= last@.len(),
            rows@.len() <= usize::MAX,
            want == numbered_rows(rows@),
            is_merged(want, last@),
            table@.len() == k,
            forall|j: int|
                0 <= j < k ==> (#[trigger] table@[j]).0 == last@[j].0 && last@[j].1 < rows@.len()
                    && table@[j].1 == rows@[last@[j].1 as int].bidi_mirroring_glyph@,
        decreases last@.len() - k,
    {
        let (cp, at) = last[k];
        proof {
            assert(want.contains(last@[k as int]));
            let j = choose|j: int| 0 <= j < want.len() && want[j] == last@[k as int];
            assert(want[j] == (rows@[j].codepoint@, j as u64));
            assert(at == j as u64);
            assert(at as int == j);
        }
        table.push((cp, rows[at as usize].bidi_mirroring_glyph.value()));
        k += 1;
    }
    table
}

/// Writes the table `name` from codepoints to their mirroring glyphs.
pub fn command(rows: &Vec<BidiMirroring>, name: &str, wtr: &mut Writer) -> (r: Result<(), Error>)
    ensures
        r is Ok ==> exists|table: Seq<(u32, u32)>| #[trigger]
            is_mirror_table(rows@, table) && final(wtr)@ == old(wtr)@.codepoint_to_codepoint(
                name@,
                table,
            ),
        old(wtr)@.opts.fst_dir is None ==> r is Ok,
{
    let table = mirror_table(rows);
    wtr.codepoint_to_codepoint(name, &table)
}

} // verus!
