use ucd_generate::bidi_class::{default_class_assignments, lookup_unassigned};
use ucd_generate::bidi_mirroring_glyph::{command, mirror_table};
use ucd_generate::encode::u32_key;
use ucd_generate::jamo_short_name::table_ref;
use ucd_generate::property::{group_by_value, write_tables, Filter};
use ucd_generate::tables::{hex_upper_string, rust_uint_type};
use ucd_generate::ucd_parse::bidi_mirroring_glyph::BidiMirroring;
use ucd_generate::util::{merge_pairs, sorted_set, to_range_values, to_ranges};
use ucd_generate::writer::WriterBuilder;

#[test]
fn keys_are_big_endian() {
    assert_eq!(u32_key(0x01020304), [1, 2, 3, 4]);
    assert_eq!(u32_key(0), [0, 0, 0, 0]);
    assert_eq!(u32_key(0x10FFFF), [0, 0x10, 0xFF, 0xFF]);
    assert_eq!(u32_key(u32::MAX), [0xFF, 0xFF, 0xFF, 0xFF]);
}

#[test]
fn ranges_of_codepoints() {
    assert_eq!(to_ranges(&vec![]), vec![]);
    assert_eq!(to_ranges(&vec![5]), vec![(5, 5)]);
    assert_eq!(to_ranges(&vec![3, 1, 2, 2, 7, 9, 8]), vec![(1, 3), (7, 9)]);
    assert_eq!(to_ranges(&vec![u32::MAX, u32::MAX - 1, 0]), vec![(0, 0), (u32::MAX - 1, u32::MAX)]);
    assert_eq!(sorted_set(&vec![3, 1, 3, 2]), vec![1, 2, 3]);
}

#[test]
fn ranges_with_values() {
    assert_eq!(to_range_values(&vec![]), vec![]);
    assert_eq!(
        to_range_values(&vec![(1, 5), (2, 5), (3, 6), (4, 6), (6, 6), (u32::MAX, 1)]),
        vec![(1, 2, 5), (3, 4, 6), (6, 6, 6), (u32::MAX, u32::MAX, 1)]
    );
}

#[test]
fn merged_pairs_keep_the_largest_number() {
    assert_eq!(merge_pairs(&vec![]), vec![]);
    assert_eq!(
        merge_pairs(&vec![(5, 0), (1, 0), (5, 2), (3, 1), (1, 1)]),
        vec![(1, 1), (3, 1), (5, 2)]
    );
}

#[test]
fn hexadecimal_numerals_and_types() {
    assert_eq!(hex_upper_string(0), "0");
    assert_eq!(hex_upper_string(0xAB), "AB");
    assert_eq!(hex_upper_string(0x10FFFF), "10FFFF");
    assert_eq!(hex_upper_string(u64::MAX), "FFFFFFFFFFFFFFFF");
    assert_eq!(rust_uint_type(1), "u8");
    assert_eq!(rust_uint_type(2), "u16");
    assert_eq!(rust_uint_type(4), "u32");
    assert_eq!(rust_uint_type(8), "u64");
}

#[test]
fn unassigned_bidi_classes() {
    let defaults = default_class_assignments();
    assert_eq!(lookup_unassigned(0x0600, &defaults), Some("AL"));
    assert_eq!(lookup_unassigned(0x07BF, &defaults), Some("AL"));
    assert_eq!(lookup_unassigned(0x07C0, &defaults), Some("R"));
    assert_eq!(lookup_unassigned(0x20A0, &defaults), Some("ET"));
    assert_eq!(lookup_unassigned(0x20D0, &defaults), None);
    assert_eq!(lookup_unassigned(0x41, &defaults), None);
    let overlapping = [(0, 10, "first"), (5, 20, "second")];
    assert_eq!(lookup_unassigned(7, &overlapping), Some("first"));
    assert_eq!(lookup_unassigned(11, &overlapping), Some("second"));
    assert_eq!(lookup_unassigned(21, &overlapping), None);
}

#[test]
fn borrowed_table() {
    let table = vec![(0x1100, "G".to_string()), (0x1101, "GG".to_string())];
    assert_eq!(table_ref(&table), vec![(0x1100, "G"), (0x1101, "GG")]);
    assert!(table_ref(&[]).is_empty());
}

#[test]
fn mirroring_glyphs() {
    let rows: Vec<BidiMirroring> = [
        "0029; 0028 # RIGHT PARENTHESIS",
        "0028; 0029 # LEFT PARENTHESIS",
        "0029; 003C # a later row of the same codepoint",
    ]
    .iter()
    .map(|line| BidiMirroring::from_str(line).unwrap())
    .collect();
    assert_eq!(mirror_table(&rows), vec![(0x28, 0x29), (0x29, 0x3C)]);
    let mut wtr = WriterBuilder::new("m").from_writer(String::new());
    command(&rows, "BIDI_MIRRORING_GLYPH", &mut wtr).unwrap();
    assert!(wtr.into_inner().ends_with(
        "\npub const BIDI_MIRRORING_GLYPH: &'static [(u32, u32)] = &[\n  (40, 41), (41, 60),\n];\n"
    ));
}

#[test]
fn groups_of_values() {
    let rows = vec![
        (0x41, 0x43, "Lu".to_string()),
        (0x61, 0x61, "Ll".to_string()),
        (0x45, 0x45, "Lu".to_string()),
        (5, 4, "Lu".to_string()),
    ];
    let groups = group_by_value(&rows);
    assert_eq!(
        groups,
        vec![("Lu".to_string(), vec![0x41, 0x42, 0x43, 0x45]), ("Ll".to_string(), vec![0x61])]
    );
    assert!(group_by_value(&vec![]).is_empty());
    let all = group_by_value(&vec![(u32::MAX - 1, u32::MAX, "x".to_string())]);
    assert_eq!(all, vec![("x".to_string(), vec![u32::MAX - 1, u32::MAX])]);
    let mut wtr = WriterBuilder::new("gc").from_writer(String::new());
    write_tables(&mut wtr, "gc", &groups, &Filter::all(), false).unwrap();
    assert!(wtr.into_inner().ends_with(
        "\npub const BY_NAME: &'static [(&'static str, &'static [(u32, u32)])] = &[\n  (\"Ll\", LL), (\"Lu\", LU),\n];\n\npub const LU: &'static [(u32, u32)] = &[\n  (65, 67), (69, 69),\n];\n\npub const LL: &'static [(u32, u32)] = &[\n  (97, 97),\n];\n"
    ));
}

#[test]
fn last_places_of_codepoints() {
    assert_eq!(ucd_generate::util::last_places(&vec![5, 1, 5, 9, 1, 5]), vec![(1, 4), (5, 5), (9, 3)]);
    assert_eq!(ucd_generate::util::last_places(&vec![]), vec![]);
}

#[test]
fn short_names_of_the_jamo() {
    let rows = vec![
        (0x1101, "GG".to_string()),
        (0x1100, "X".to_string()),
        (0x1161, "A".to_string()),
        (0x1100, "G".to_string()),
    ];
    assert_eq!(
        ucd_generate::jamo_short_name::name_table(&rows),
        vec![(0x1100, "G".to_string()), (0x1101, "GG".to_string()), (0x1161, "A".to_string())]
    );
    let mut wtr = WriterBuilder::new("jamo").from_writer(String::new());
    ucd_generate::jamo_short_name::command(&rows, "JAMO_SHORT_NAME", &mut wtr).unwrap();
    assert!(wtr.into_inner().ends_with(
        "\npub const JAMO_SHORT_NAME: &'static [(u32, &'static str)] = &[\n  (4352, \"G\"), (4353, \"GG\"), (4449, \"A\"),\n];\n"
    ));
}

#[test]
fn canonical_combining_classes() {
    let rows = vec![
        (0x300, "Above".to_string()),
        (0x41, "Not_Reordered".to_string()),
        (0x301, "Above".to_string()),
    ];
    assert_eq!(
        ucd_generate::canonical_combining_class::class_rows(&rows),
        vec![
            (0x300, 0x300, "Above".to_string()),
            (0x41, 0x41, "Not_Reordered".to_string()),
            (0x301, 0x301, "Above".to_string()),
        ]
    );
    let mut wtr = WriterBuilder::new("ccc").from_writer(String::new());
    ucd_generate::canonical_combining_class::command(&rows, "Not_Reordered", true, "ccc", &mut wtr)
        .unwrap();
    assert!(wtr.into_inner().ends_with(
        "\npub const CCC_ENUM: &'static [&'static str] = &[\n  \"Above\", \"Not_Reordered\",\n];\n\npub const CCC: &'static [(u32, u32, u8)] = &[\n  (0, 767, 1), (768, 769, 0), (770, 1114111, 1),\n];\n"
    ));
}

fn simple_cases() -> Vec<ucd_generate::case_mapping::SimpleCase> {
    vec![
        ucd_generate::case_mapping::SimpleCase {
            codepoint: 0x61,
            lowercase: None,
            uppercase: Some(0x41),
            titlecase: Some(0x41),
        },
        ucd_generate::case_mapping::SimpleCase {
            codepoint: 0x41,
            lowercase: Some(0x61),
            uppercase: None,
            titlecase: None,
        },
        ucd_generate::case_mapping::SimpleCase {
            codepoint: 0xDF,
            lowercase: None,
            uppercase: Some(0x1E9E),
            titlecase: None,
        },
    ]
}

fn special_cases() -> Vec<ucd_generate::case_mapping::SpecialCase> {
    vec![
        ucd_generate::case_mapping::SpecialCase {
            codepoint: 0xDF,
            lowercase: vec![0xDF],
            titlecase: vec![0x53, 0x73],
            uppercase: vec![0x53, 0x53],
            conditional: false,
        },
        ucd_generate::case_mapping::SpecialCase {
            codepoint: 0x3A3,
            lowercase: vec![0x3C2],
            titlecase: vec![],
            uppercase: vec![],
            conditional: true,
        },
        ucd_generate::case_mapping::SpecialCase {
            codepoint: 0x41,
            lowercase: vec![],
            titlecase: vec![],
            uppercase: vec![0x41, 0x41],
            conditional: false,
        },
    ]
}

#[test]
fn maps_of_the_cases() {
    let (rows, special) = (simple_cases(), special_cases());
    let lower = ucd_generate::case_mapping::mapping(
        &rows,
        &special,
        ucd_generate::case_mapping::Case::Lower,
        false,
    );
    assert_eq!(lower, vec![(0x41, vec![0x61]), (0xDF, vec![0xDF])]);
    let upper = ucd_generate::case_mapping::mapping(
        &rows,
        &special,
        ucd_generate::case_mapping::Case::Upper,
        false,
    );
    assert_eq!(upper, vec![(0x41, vec![0x41, 0x41]), (0x61, vec![0x41]), (0xDF, vec![0x53, 0x53])]);
    let title = ucd_generate::case_mapping::mapping(
        &rows,
        &special,
        ucd_generate::case_mapping::Case::Title,
        false,
    );
    assert_eq!(title, vec![(0x61, vec![0x41]), (0xDF, vec![0x53, 0x73])]);
    let upper = ucd_generate::case_mapping::mapping(
        &rows,
        &special,
        ucd_generate::case_mapping::Case::Upper,
        true,
    );
    assert_eq!(upper, vec![(0x61, vec![0x41]), (0xDF, vec![0x1E9E])]);
}

#[test]
fn tables_of_the_cases() {
    let (rows, special) = (simple_cases(), special_cases());
    let mut wtr = WriterBuilder::new("case").from_writer(String::new());
    ucd_generate::case_mapping::command(&rows, &special, false, &mut wtr).unwrap();
    let mut by_hand = WriterBuilder::new("case").from_writer(String::new());
    let upper = vec![(0x41, vec![0x41, 0x41]), (0x61, vec![0x41]), (0xDF, vec![0x53, 0x53])];
    by_hand.codepoint_to_codepoints("LOWER", &vec![(0x41, vec![0x61]), (0xDF, vec![0xDF])]).unwrap();
    by_hand.codepoint_to_codepoints("UPPER", &upper).unwrap();
    by_hand.codepoint_to_codepoints("TITLE", &upper).unwrap();
    let text = wtr.into_inner();
    assert_eq!(text, by_hand.into_inner());
    assert!(text.contains("pub const LOWER: &'static [(u32, &'static [u32])] = &[\n  (65, &[97]), (223, &[223]),\n];\n"));
    let mut wtr = WriterBuilder::new("case").from_writer(String::new());
    ucd_generate::case_mapping::command(&rows, &special, true, &mut wtr).unwrap();
    assert!(wtr.into_inner().ends_with(
        "\npub const LOWER: &'static [(u32, u32)] = &[\n  (97, 65), (223, 7838),\n];\n\npub const UPPER: &'static [(u32, u32)] = &[\n  (65, 97),\n];\n\npub const TITLE: &'static [(u32, u32)] = &[\n  (97, 65),\n];\n"
    ));
    let mut wtr = WriterBuilder::new("case").from_fst_dir("out", String::new());
    assert!(ucd_generate::case_mapping::command(&rows, &special, false, &mut wtr).is_err());
}
