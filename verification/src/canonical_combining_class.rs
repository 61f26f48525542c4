//! The tables of the canonical combining classes of the codepoints.

use vstd::prelude::*;
use vstd::string::*;
use crate::error::Error;
use crate::property::{classes_written, has_row, write_classes};
use crate::writer::Writer;

verus! {

/// Whether `plain` gives the codepoint of each row the name of its class.
pub open spec fn is_class_rows(rows: Seq<(u32, String)>, plain: Seq<(u32, u32, String)>) -> bool {
    &&& plain.len() == rows.len()
    &&& forall|i: int|
        0 <= i < rows.len() ==> (#[trigger] plain[i]).0 == rows[i].0 && plain[i].1 == rows[i].0
            && plain[i].2@ == rows[i].1@
}

/// The codepoint of each row with the name of its class.
pub fn class_rows(rows: &Vec<(u32, String)>) -> (plain: Vec<(u32, u32, String)>)
    ensures
        is_class_rows(rows@, plain@),
{
    let mut plain: Vec<(u32, u32, String)> = Vec::new();
    let mut i: usize = 0;
    while i < rows.len()
        invariant
            i <= rows@.len(),
            plain@.len() == i,
            forall|k: int|
                0 <= k < i ==> (#[trigger] plain@[k]).0 == rows@[k].0 && plain@[k].1 == rows@[k].0
                    && plain@[k].2@ == rows@[k].1@,
        decreases rows@.len() - i,
    {
        plain.push((rows[i].0, rows[i].0, rows[i].1.clone()));
        i += 1;
    }
    plain
}

/// Writes the tables of the canonical combining classes: as a map to the
/// variants of the enumeration `name` if `as_enum` is set, which fails if
/// C is written; else the list of the classes and then the set of the
/// codepoints of each class, in the order of the classes. A row gives a
/// codepoint the name of its class. A codepoint without a row has the
/// class `not_reordered`, which some row has.
pub fn command(
    rows: &Vec<(u32, String)>,
    not_reordered: &str,
    as_enum: bool,
    name: &str,
    wtr: &mut Writer,
) -> (r: Result<(), Error>)
    requires
        exists|i: int| 0 <= i < rows@.len() && (#[trigger] rows@[i]).1@ == not_reordered@,
    ensures
        r is Ok ==> exists|plain: Seq<(u32, u32, String)>| #[trigger]
            is_class_rows(rows@, plain) && classes_written(
                old(wtr)@,
                final(wtr)@,
                name@,
                plain,
                Seq::empty(),
                not_reordered@,
                as_enum,
            ),
        old(wtr)@.opts.fst_dir is None && !old(wtr)@.opts.trie_set && !(as_enum && old(
            wtr,
        )@.opts.emit_c) ==> r is Ok,
        as_enum && old(wtr)@.opts.emit_c ==> r is Err,
{
    let plain = class_rows(rows);
    let none: Vec<(u32, u32, &str)> = Vec::new();
    proof {
        let i = choose|i: int| 0 <= i < rows@.len() && (#[trigger] rows@[i]).1@ == not_reordered@;
        assert(plain@[i].2@ == not_reordered@);
        assert(has_row(plain@, not_reordered@));
        assert(none@ =~= Seq::empty());
    }
    let r = write_classes(wtr, name, &plain, none.as_slice(), not_reordered, as_enum);
    proof {
        if r is Ok {
            assert(is_class_rows(rows@, plain@));
        }
    }
    r
}

} // verus!
