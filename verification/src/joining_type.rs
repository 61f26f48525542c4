//! The tables of the joining types of the codepoints.

use vstd::prelude::*;
use vstd::string::*;
use crate::error::Error;
use crate::property::{classes_written, write_classes};
use crate::ucd_parse::arabic_shaping::{joining_letter, ArabicShaping};
use crate::writer::Writer;

verus! {

/// Whether `plain` gives the codepoint of each row the letter of its
/// joining type.
pub open spec fn is_type_rows(rows: Seq<ArabicShaping>, plain: Seq<(u32, u32, String)>) -> bool {
    &&& plain.len() == rows.len()
    &&& forall|i: int|
        0 <= i < rows.len() ==> (#[trigger] plain[i]).0 == rows[i].codepoint@ && plain[i].1
            == rows[i].codepoint@ && plain[i].2@ == seq![joining_letter(rows[i].joining_type)]
}

/// The codepoint of each row with the letter of its joining type.
pub fn type_rows(rows: &Vec<ArabicShaping>) -> (plain: Vec<(u32, u32, String)>)
    ensures
        is_type_rows(rows@, plain@),
{
    let mut plain: Vec<(u32, u32, String)> = Vec::new();
    let mut i: usize = 0;
    while i < rows.len()
        invariant
            i <= rows@.len(),
            plain@.len() == i,
            forall|k: int|
                0 <= k < i ==> (#[trigger] plain@[k]).0 == rows@[k].codepoint@ && plain@[k].1
                    == rows@[k].codepoint@ && plain@[k].2@ == seq![
                    joining_letter(rows@[k].joining_type),
                ],
        decreases rows@.len() - i,
    {
        let cp = rows[i].codepoint.value();
        plain.push((cp, cp, String::from_str(rows[i].joining_type.as_str())));
        i += 1;
    }
    plain
}

/// Writes the tables of the joining types: as a map to the variants of
/// the enumeration `name` if `as_enum` is set, which fails if C is
/// written; else the list of the types and then the set of the codepoints
/// of each type, in the order of the types. A codepoint without a row is
/// transparent, `T`, if a range of `transparent` holds it, and non-joining,
/// `U`, if none does: `transparent` holds the codepoints of the general
/// categories `Mn`, `Me` and `Cf`, each range with the letter `T`. Both
/// types have a row.
pub fn command(
    rows: &Vec<ArabicShaping>,
    transparent: &[(u32, u32, &str)],
    as_enum: bool,
    name: &str,
    wtr: &mut Writer,
) -> (r: Result<(), Error>)
    requires
        forall|d: int| 0 <= d < transparent@.len() ==> (#[trigger] transparent@[d]).2@ == "T"@,
        exists|i: int|
            0 <= i < rows@.len() && joining_letter((#[trigger] rows@[i]).joining_type) == 'T',
        exists|i: int|
            0 <= i < rows@.len() && joining_letter((#[trigger] rows@[i]).joining_type) == 'U',
    ensures
        r is Ok ==> exists|plain: Seq<(u32, u32, String)>| #[trigger]
            is_type_rows(rows@, plain) && classes_written(
                old(wtr)@,
                final(wtr)@,
                name@,
                plain,
                transparent@,
                "U"@,
                as_enum,
            ),
        old(wtr)@.opts.fst_dir is None && !old(wtr)@.opts.trie_set && !(as_enum && old(
            wtr,
        )@.opts.emit_c) ==> r is Ok,
        as_enum && old(wtr)@.opts.emit_c ==> r is Err,
{
    let plain = type_rows(rows);
    proof {
        reveal_strlit("T");
        reveal_strlit("U");
        let t = choose|i: int|
            0 <= i < rows@.len() && joining_letter((#[trigger] rows@[i]).joining_type) == 'T';
        let u = choose|i: int|
            0 <= i < rows@.len() && joining_letter((#[trigger] rows@[i]).joining_type) == 'U';
        assert(plain@[t].2@ =~= "T"@);
        assert(plain@[u].2@ =~= "U"@);
        assert forall|d: int| 0 <= d < transparent@.len() implies crate::property::has_row(
            plain@,
            (#[trigger] transparent@[d]).2@,
        ) by {
            assert(plain@[t].2@ == transparent@[d].2@);
        }
    }
    let r = write_classes(wtr, name, &plain, transparent, "U", as_enum);
    proof {
        if r is Ok {
            assert(is_type_rows(rows@, plain@));
        }
    }
    r
}

/// Whether codepoints of the general category `category` that have no
/// row are transparent: the category is `Mn`, `Me` or `Cf`.
pub open spec fn is_transparent(category: Seq<char>) -> bool {
    category == "Mn"@ || category == "Me"@ || category == "Cf"@
}

/// The ranges of the first `upto` rows whose general category makes
/// their codepoints transparent, each with the letter `T`.
pub open spec fn transparent_of(rows: Seq<(u32, u32, String)>, upto: int) -> Seq<
    (u32, u32, &'static str),
>
    decreases upto,
{
    if upto <= 0 {
        Seq::empty()
    } else if is_transparent(rows[upto - 1].2@) {
        transparent_of(rows, upto - 1).push((rows[upto - 1].0, rows[upto - 1].1, "T"))
    } else {
        transparent_of(rows, upto - 1)
    }
}

/// The ranges of codepoints that are transparent where they have no row:
/// those of the rows with the general category `Mn`, `Me` or `Cf`. A row
/// gives the codepoints from its first to its second number its general
/// category.
pub fn transparent_ranges(rows: &Vec<(u32, u32, String)>) -> (ranges: Vec<(u32, u32, &'static str)>)
    ensures
        ranges@ == transparent_of(rows@, rows@.len() as int),
        forall|d: int| 0 <= d < ranges@.len() ==> (#[trigger] ranges@[d]).2@ == "T"@,
{
    let mn = String::from_str("Mn");
    let me = String::from_str("Me");
    let cf = String::from_str("Cf");
    let mut ranges: Vec<(u32, u32, &'static str)> = Vec::new();
    let mut i: usize = 0;
    while i < rows.len()
        invariant
            i <= rows@.len(),
            mn@ == "Mn"@,
            me@ == "Me"@,
            cf@ == "Cf"@,
            ranges@ == transparent_of(rows@, i as int),
            forall|d: int| 0 <= d < ranges@.len() ==> (#[trigger] ranges@[d]).2@ == "T"@,
        decreases rows@.len() - i,
    {
        if rows[i].2 == mn || rows[i].2 == me || rows[i].2 == cf {
            ranges.push((rows[i].0, rows[i].1, "T"));
        }
        i += 1;
    }
    ranges
}

} // verus!
