use ucd_generate::hangul::{hangul_full_canonical_decomposition, hangul_name};

const TABLE: &'static [(u32, &'static str)] = &[
    (0x1100, "G"),
    (0x1101, "GG"),
    (0x1102, "N"),
    (0x1103, "D"),
    (0x1104, "DD"),
    (0x1105, "R"),
    (0x1106, "M"),
    (0x1107, "B"),
    (0x1108, "BB"),
    (0x1109, "S"),
    (0x110A, "SS"),
    (0x110B, ""),
    (0x110C, "J"),
    (0x110D, "JJ"),
    (0x110E, "C"),
    (0x110F, "K"),
    (0x1110, "T"),
    (0x1111, "P"),
    (0x1112, "H"),
    (0x1161, "A"),
    (0x1162, "AE"),
    (0x1163, "YA"),
    (0x1164, "YAE"),
    (0x1165, "EO"),
    (0x1166, "E"),
    (0x1167, "YEO"),
    (0x1168, "YE"),
    (0x1169, "O"),
    (0x116A, "WA"),
    (0x116B, "WAE"),
    (0x116C, "OE"),
    (0x116D, "YO"),
    (0x116E, "U"),
    (0x116F, "WEO"),
    (0x1170, "WE"),
    (0x1171, "WI"),
    (0x1172, "YU"),
    (0x1173, "EU"),
    (0x1174, "YI"),
    (0x1175, "I"),
    (0x11A8, "G"),
    (0x11A9, "GG"),
    (0x11AA, "GS"),
    (0x11AB, "N"),
    (0x11AC, "NJ"),
    (0x11AD, "NH"),
    (0x11AE, "D"),
    (0x11AF, "L"),
    (0x11B0, "LG"),
    (0x11B1, "LM"),
    (0x11B2, "LB"),
    (0x11B3, "LS"),
    (0x11B4, "LT"),
    (0x11B5, "LP"),
    (0x11B6, "LH"),
    (0x11B7, "M"),
    (0x11B8, "B"),
    (0x11B9, "BS"),
    (0x11BA, "S"),
    (0x11BB, "SS"),
    (0x11BC, "NG"),
    (0x11BD, "J"),
    (0x11BE, "C"),
    (0x11BF, "K"),
    (0x11C0, "T"),
    (0x11C1, "P"),
    (0x11C2, "H"),
];

#[test]
fn canon_decomp() {
    assert_eq!(
        hangul_full_canonical_decomposition(0xD4DB),
        Some((0x1111, 0x1171, Some(0x11B6)))
    );
}

#[test]
fn name() {
    assert_eq!(hangul_name(TABLE, 0xD4DB).unwrap(), "HANGUL SYLLABLE PWILH");
}

#[test]
fn all() {
    for cp in 0xAC00..(0xD7A3 + 1) {
        hangul_name(TABLE, cp).unwrap();
    }
}

#[test]
fn invalid() {
    assert!(hangul_name(TABLE, 0).is_none());
}

#[test]
fn decomposition_bounds() {
    assert_eq!(hangul_full_canonical_decomposition(0xAC00), Some((0x1100, 0x1161, None)));
    assert_eq!(
        hangul_full_canonical_decomposition(0xD7A3),
        Some((0x1112, 0x1175, Some(0x11C2)))
    );
    assert_eq!(hangul_full_canonical_decomposition(0xABFF), None);
    assert_eq!(hangul_full_canonical_decomposition(0xD7A4), None);
}

#[test]
fn name_without_trailing_consonant() {
    assert_eq!(hangul_name(TABLE, 0xAC00).unwrap(), "HANGUL SYLLABLE GA");
}

#[test]
fn no_name_outside_the_syllables_whatever_the_table() {
    let unsorted = [(0x1101, "GG"), (0x1100, "G"), (0x1101, "X")];
    assert_eq!(hangul_name(&unsorted, 0x41), None);
    assert_eq!(hangul_name(&unsorted, 0xABFF), None);
    assert_eq!(hangul_name(&[], 0xD7A4), None);
}
