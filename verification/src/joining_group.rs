//! The tables of the joining groups of the codepoints.

use vstd::prelude::*;
use vstd::string::*;
use crate::error::Error;
use crate::property::{classes_written, write_classes};
use crate::ucd_parse::arabic_shaping::ArabicShaping;
use crate::writer::Writer;

verus! {

/// Whether `plain` gives the codepoint of each row its joining group.
pub open spec fn is_group_rows(rows: Seq<ArabicShaping>, plain: Seq<(u32, u32, String)>) -> bool {
    &&& plain.len() == rows.len()
    &&& forall|i: int|
        0 <= i < rows.len() ==> (#[trigger] plain[i]).0 == rows[i].codepoint@ && plain[i].1
            == rows[i].codepoint@ && plain[i].2@ == rows[i].joining_group@
}

/// The codepoint of each row with its joining group.
pub fn group_rows(rows: &Vec<ArabicShaping>) -> (plain: Vec<(u32, u32, String)>)
    ensures
        is_group_rows(rows@, plain@),
{
    let mut plain: Vec<(u32, u32, String)> = Vec::new();
    let mut i: usize = 0;
    while i < rows.len()
        invariant
            i <= rows@.len(),
            plain@.len() == i,
            forall|k: int|
                0 <= k < i ==> (#[trigger] plain@[k]).0 == rows@[k].codepoint@ && plain@[k].1
                    == rows@[k].codepoint@ && plain@[k].2@ == rows@[k].joining_group@,
        decreases rows@.len() - i,
    {
        let cp = rows[i].codepoint.value();
        plain.push((cp, cp, rows[i].joining_group.clone()));
        i += 1;
    }
    plain
}

/// Writes the tables of the joining groups: as a map to the variants of
/// the enumeration `name` if `as_enum` is set, which fails if C is
/// written; else the list of the groups and then the set of the
/// codepoints of each group, in the order of the groups. A codepoint
/// without a row has the group `no_joining_group`, which some row has.
pub fn command(
    rows: &Vec<ArabicShaping>,
    no_joining_group: &str,
    as_enum: bool,
    name: &str,
    wtr: &mut Writer,
) -> (r: Result<(), Error>)
    requires
        exists|i: int|
            0 <= i < rows@.len() && (#[trigger] rows@[i]).joining_group@ == no_joining_group@,
    ensures
        r is Ok ==> exists|plain: Seq<(u32, u32, String)>| #[trigger]
            is_group_rows(rows@, plain) && classes_written(
                old(wtr)@,
                final(wtr)@,
                name@,
                plain,
                Seq::empty(),
                no_joining_group@,
                as_enum,
            ),
        old(wtr)@.opts.fst_dir is None && !old(wtr)@.opts.trie_set && !(as_enum && old(
            wtr,
        )@.opts.emit_c) ==> r is Ok,
        as_enum && old(wtr)@.opts.emit_c ==> r is Err,
{
    let plain = group_rows(rows);
    let none: Vec<(u32, u32, &str)> = Vec::new();
    proof {
        let i = choose|i: int|
            0 <= i < rows@.len() && (#[trigger] rows@[i]).joining_group@ == no_joining_group@;
        assert(plain@[i].2@ == no_joining_group@);
        assert(none@ =~= Seq::empty());
    }
    let r = write_classes(wtr, name, &plain, none.as_slice(), no_joining_group, as_enum);
    proof {
        if r is Ok {
            assert(is_group_rows(rows@, plain@));
        }
    }
    r
}

} // verus!
