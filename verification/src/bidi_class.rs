//! The classes of bidirectional text that codepoints without an entry of
//! their own have.

use vstd::prelude::*;
use vstd::string::*;
use crate::error::Error;
use crate::property::{classes_written, has_row, write_classes};
use crate::writer::Writer;

verus! {

/// The index of the first range of `defaults` that holds `codepoint`, if
/// there is one.
pub open spec fn first_range_with(defaults: Seq<(u32, u32, &str)>, codepoint: u32, from: int) -> Option<
    int,
>
    decreases defaults.len() - from,
{
    if from < 0 || from >= defaults.len() {
        None
    } else if defaults[from].0 <= codepoint <= defaults[from].1 {
        Some(from)
    } else {
        first_range_with(defaults, codepoint, from + 1)
    }
}

/// The first range that holds a codepoint is one of the ranges, and holds
/// the codepoint.
pub proof fn lemma_first_range(defaults: Seq<(u32, u32, &str)>, codepoint: u32, from: int)
    requires
        0 <= from,
    ensures
        match first_range_with(defaults, codepoint, from) {
            Some(i) => from <= i < defaults.len() && defaults[i].0 <= codepoint <= defaults[i].1,
            None => true,
        },
    decreases defaults.len() - from,
{
    if from < defaults.len() && !(defaults[from].0 <= codepoint <= defaults[from].1) {
        lemma_first_range(defaults, codepoint, from + 1);
    }
}

/// The class that the first range of `defaults` that holds `codepoint`
/// gives it, if a range holds it.
pub fn lookup_unassigned<'a>(codepoint: u32, defaults: &[(u32, u32, &'a str)]) -> (class: Option<
    &'a str,
>)
    ensures
        match first_range_with(defaults@, codepoint, 0) {
            Some(i) => class == Some(defaults@[i].2),
            None => class is None,
        },
{
    let mut i: usize = 0;
    while i < defaults.len()
        invariant
            i <= defaults@.len(),
            first_range_with(defaults@, codepoint, 0) == first_range_with(
                defaults@,
                codepoint,
                i as int,
            ),
        decreases defaults@.len() - i,
    {
        if defaults[i].0 <= codepoint && codepoint <= defaults[i].1 {
            return Some(defaults[i].2);
        }
        i += 1;
    }
    None
}

/// The ranges of codepoints that have the class `AL`, `R` or `ET` while
/// they are unassigned: blocks that are kept for scripts that are written
/// from right to left, and the block of the currency symbols.
pub open spec fn class_defaults() -> Seq<(u32, u32, &'static str)> {
    seq![
        (0x0600u32, 0x07BFu32, "AL"),
        (0x0860u32, 0x086Fu32, "AL"),
        (0x08A0u32, 0x08FFu32, "AL"),
        (0xFB50u32, 0xFDCFu32, "AL"),
        (0xFDF0u32, 0xFDFFu32, "AL"),
        (0xFE70u32, 0xFEFFu32, "AL"),
        (0x00010D00u32, 0x00010D3Fu32, "AL"),
        (0x00010F30u32, 0x00010F6Fu32, "AL"),
        (0x0001EC70u32, 0x0001ECBFu32, "AL"),
        (0x0001ED00u32, 0x0001ED4Fu32, "AL"),
        (0x0001EE00u32, 0x0001EEFFu32, "AL"),
        (0x0590u32, 0x05FFu32, "R"),
        (0x07C0u32, 0x085Fu32, "R"),
        (0x0870u32, 0x089Fu32, "R"),
        (0xFB1Du32, 0xFB4Fu32, "R"),
        (0x00010800u32, 0x00010CFFu32, "R"),
        (0x00010D40u32, 0x00010F2Fu32, "R"),
        (0x00010F70u32, 0x00010FFFu32, "R"),
        (0x0001E800u32, 0x0001EC6Fu32, "R"),
        (0x0001ECC0u32, 0x0001ECFFu32, "R"),
        (0x0001ED50u32, 0x0001EDFFu32, "R"),
        (0x0001EF00u32, 0x0001EFFFu32, "R"),
        (0x20A0u32, 0x20CFu32, "ET"),
    ]
}

/// The ranges of codepoints that have the class `AL`, `R` or `ET` while
/// they are unassigned, in the order in which they are looked up.
pub fn default_class_assignments() -> (defaults: Vec<(u32, u32, &'static str)>)
    ensures
        defaults@ == class_defaults(),
        defaults@.len() == 23,
        forall|i: int| 0 <= i < defaults@.len() ==> (#[trigger] defaults@[i]).0 <= defaults@[i].1,
{
    let mut defaults: Vec<(u32, u32, &'static str)> = Vec::new();
    defaults.push((0x0600, 0x07BF, "AL"));
    defaults.push((0x0860, 0x086F, "AL"));
    defaults.push((0x08A0, 0x08FF, "AL"));
    defaults.push((0xFB50, 0xFDCF, "AL"));
    defaults.push((0xFDF0, 0xFDFF, "AL"));
    defaults.push((0xFE70, 0xFEFF, "AL"));
    defaults.push((0x00010D00, 0x00010D3F, "AL"));
    defaults.push((0x00010F30, 0x00010F6F, "AL"));
    defaults.push((0x0001EC70, 0x0001ECBF, "AL"));
    defaults.push((0x0001ED00, 0x0001ED4F, "AL"));
    defaults.push((0x0001EE00, 0x0001EEFF, "AL"));
    defaults.push((0x0590, 0x05FF, "R"));
    defaults.push((0x07C0, 0x085F, "R"));
    defaults.push((0x0870, 0x089F, "R"));
    defaults.push((0xFB1D, 0xFB4F, "R"));
    defaults.push((0x00010800, 0x00010CFF, "R"));
    defaults.push((0x00010D40, 0x00010F2F, "R"));
    defaults.push((0x00010F70, 0x00010FFF, "R"));
    defaults.push((0x0001E800, 0x0001EC6F, "R"));
    defaults.push((0x0001ECC0, 0x0001ECFF, "R"));
    defaults.push((0x0001ED50, 0x0001EDFF, "R"));
    defaults.push((0x0001EF00, 0x0001EFFF, "R"));
    defaults.push((0x20A0, 0x20CF, "ET"));
    assert(defaults@ =~= class_defaults());
    defaults
}

/// The default classes in the order in which they are looked up: the
/// ranges of the classes `AL`, `R` and `ET`, and then the ranges of
/// `boundary_neutral` with the class `BN`.
pub open spec fn bidi_defaults(boundary_neutral: Seq<(u32, u32)>) -> Seq<(u32, u32, &'static str)> {
    class_defaults() + Seq::new(
        boundary_neutral.len(),
        |i: int| (boundary_neutral[i].0, boundary_neutral[i].1, "BN"),
    )
}

/// Every default class is `AL`, `R`, `ET` or `BN`.
pub proof fn lemma_default_classes(boundary_neutral: Seq<(u32, u32)>, d: int)
    requires
        0 <= d < bidi_defaults(boundary_neutral).len(),
    ensures
        ({
            let class = bidi_defaults(boundary_neutral)[d].2;
            if d < 23 {
                class == "AL" || class == "R" || class == "ET"
            } else {
                class == "BN"
            }
        }),
{
    let defaults = class_defaults();
    assert(defaults.len() == 23);
    if d < 23 {
        assert(bidi_defaults(boundary_neutral)[d] == defaults[d]);
        if d < 11 {
            assert(defaults[d].2 == "AL");
        } else if d < 22 {
            assert(defaults[d].2 == "R");
        } else {
            assert(defaults[d].2 == "ET");
        }
    }
}

/// Writes the tables of the classes of bidirectional text: as a map to
/// the variants of the enumeration `name` if `as_enum` is set, which
/// fails if C is written; else the list of the classes and then the set
/// of the codepoints of each class, in the order of the classes. A
/// codepoint without a row has the class of the first default range that
/// holds it; if none holds it, it has the class `BN` where a range of
/// `boundary_neutral` holds it, and the class `L` else. The classes that
/// are given by default have a row.
pub fn command(
    rows: &Vec<(u32, u32, String)>,
    boundary_neutral: &Vec<(u32, u32)>,
    as_enum: bool,
    name: &str,
    wtr: &mut Writer,
) -> (r: Result<(), Error>)
    requires
        has_row(rows@, "L"@),
        has_row(rows@, "AL"@),
        has_row(rows@, "R"@),
        has_row(rows@, "ET"@),
        boundary_neutral@.len() > 0 ==> has_row(rows@, "BN"@),
    ensures
        r is Ok ==> classes_written(
            old(wtr)@,
            final(wtr)@,
            name@,
            rows@,
            bidi_defaults(boundary_neutral@),
            "L"@,
            as_enum,
        ),
        old(wtr)@.opts.fst_dir is None && !old(wtr)@.opts.trie_set && !(as_enum && old(
            wtr,
        )@.opts.emit_c) ==> r is Ok,
        as_enum && old(wtr)@.opts.emit_c ==> r is Err,
{
    let mut defaults = default_class_assignments();
    let ghost want = bidi_defaults(boundary_neutral@);
    let mut i: usize = 0;
    while i < boundary_neutral.len()
        invariant
            i <= boundary_neutral@.len(),
            want == bidi_defaults(boundary_neutral@),
            defaults@ == want.take(23 + i),
        decreases boundary_neutral@.len() - i,
    {
        defaults.push((boundary_neutral[i].0, boundary_neutral[i].1, "BN"));
        i += 1;
        assert(defaults@ =~= want.take(23 + i));
    }
    proof {
        assert(want.take(23 + i) =~= want);
        assert forall|d: int| 0 <= d < defaults@.len() implies has_row(
            rows@,
            (#[trigger] defaults@[d]).2@,
        ) by {
            lemma_default_classes(boundary_neutral@, d);
        }
    }
    write_classes(wtr, name, rows, defaults.as_slice(), "L", as_enum)
}

} // verus!
