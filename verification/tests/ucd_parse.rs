use ucd_generate::ucd_parse::arabic_shaping::{ArabicShaping, JoiningType};
use ucd_generate::ucd_parse::bidi_mirroring_glyph::BidiMirroring;
use ucd_generate::ucd_parse::common::{Codepoint, CodepointRange, Codepoints};
use ucd_generate::ucd_parse::extracted::{
    DerivedBidiClass, DerivedBinaryProperties, DerivedCombiningClass, DerivedDecompositionType,
    DerivedEastAsianWidth, DerivedGeneralCategory, DerivedJoiningGroup, DerivedJoiningType,
    DerivedLineBreak, DerivedName, DerivedNumericType, DerivedNumericValues,
};
use ucd_generate::ucd_parse::rows::{
    DerivedNormalizationProperty, EastAsianWidth, EmojiProperty, GraphemeClusterBreak,
    SentenceBreak, WordBreak,
};

fn codepoint(n: u32) -> Codepoint {
    Codepoint::from_u32(n).unwrap()
}

fn s(string: &str) -> String {
    string.to_string()
}

fn single(n: u32) -> Codepoints {
    Codepoints::Single(codepoint(n))
}

fn range(start: u32, end: u32) -> Codepoints {
    Codepoints::Range(CodepointRange { start: codepoint(start), end: codepoint(end) })
}

#[test]
fn parse1() {
    let line = "0600; ARABIC NUMBER SIGN; U; No_Joining_Group\n";
    let data = ArabicShaping::from_str(line).unwrap();
    assert_eq!(
        data,
        ArabicShaping {
            codepoint: codepoint(0x0600),
            schematic_name: s("ARABIC NUMBER SIGN"),
            joining_type: JoiningType::NonJoining,
            joining_group: s("No_Joining_Group")
        }
    );
}

#[test]
fn parse2() {
    let line = "063D; FARSI YEH WITH INVERTED V ABOVE; D; FARSI YEH\n";
    let data = ArabicShaping::from_str(line).unwrap();
    assert_eq!(
        data,
        ArabicShaping {
            codepoint: codepoint(0x063D),
            schematic_name: s("FARSI YEH WITH INVERTED V ABOVE"),
            joining_type: JoiningType::DualJoining,
            joining_group: s("FARSI YEH")
        }
    );
}

#[test]
fn parse3() {
    let line =
        "10D23; HANIFI ROHINGYA DOTLESS KINNA YA WITH DOT ABOVE; D; HANIFI ROHINGYA KINNA YA\n";
    let data = ArabicShaping::from_str(line).unwrap();
    assert_eq!(
        data,
        ArabicShaping {
            codepoint: codepoint(0x10D23),
            schematic_name: s(
                "HANIFI ROHINGYA DOTLESS KINNA YA WITH DOT ABOVE"
            ),
            joining_type: JoiningType::DualJoining,
            joining_group: s("HANIFI ROHINGYA KINNA YA")
        }
    );
}

#[test]
fn parse() {
    let line = "0028; 0029 # LEFT PARENTHESIS\n";
    let data = BidiMirroring::from_str(line).unwrap();
    assert_eq!(
        data,
        BidiMirroring {
            codepoint: codepoint(0x0028),
            bidi_mirroring_glyph: codepoint(0x0029),
        }
    );
}

#[test]
fn parse_best_fit() {
    let line = "228A; 228B # [BEST FIT] SUBSET OF WITH NOT EQUAL TO\n";
    let data = BidiMirroring::from_str(line).unwrap();
    assert_eq!(
        data,
        BidiMirroring {
            codepoint: codepoint(0x228A),
            bidi_mirroring_glyph: codepoint(0x228B),
        }
    );
}

#[test]
fn derived_normalization_properties_parse_single() {
    let line =
        "00A0          ; Changes_When_NFKC_Casefolded # Zs       NO-BREAK SPACE\n";
    let row = DerivedNormalizationProperty::from_str(line).unwrap();
    assert_eq!(row.codepoints, single(0xA0));
    assert_eq!(row.property, "Changes_When_NFKC_Casefolded");
}

#[test]
fn derived_normalization_properties_parse_range() {
    let line = "0041..005A    ; Changes_When_NFKC_Casefolded # L&  [26] LATIN CAPITAL LETTER A..LATIN CAPITAL LETTER Z\n";
    let row = DerivedNormalizationProperty::from_str(line).unwrap();
    assert_eq!(row.codepoints, range(0x41, 0x5A));
    assert_eq!(row.property, "Changes_When_NFKC_Casefolded");
}

#[test]
fn east_asian_width_parse_single() {
    let line = "27E7;Na          # Pe         MATHEMATICAL RIGHT WHITE SQUARE BRACKET\n";
    let row = EastAsianWidth::from_str(line).unwrap();
    assert_eq!(row.codepoints, single(0x27E7));
    assert_eq!(row.width, "Na");
}

#[test]
fn east_asian_width_parse_range() {
    let line = "1F57B..1F594;N   # So    [26] LEFT HAND TELEPHONE RECEIVER..REVERSED VICTORY HAND\n";
    let row = EastAsianWidth::from_str(line).unwrap();
    assert_eq!(row.codepoints, range(0x1F57B, 0x1F594));
    assert_eq!(row.width, "N");
}

#[test]
fn emoji_properties_parse_single() {
    let line = "24C2          ; Emoji                #  1.1  [1] (‚ìÇÔ∏è)       circled M\n";
    let row = EmojiProperty::from_str(line).unwrap();
    assert_eq!(row.codepoints, single(0x24C2));
    assert_eq!(row.property, "Emoji");
}

#[test]
fn emoji_properties_parse_range() {
    let line = "1FA6E..1FFFD  ; Extended_Pictographic#   NA[1424] (ü©ÆÔ∏è..üøΩÔ∏è)   <reserved-1FA6E>..<reserved-1FFFD>\n";
    let row = EmojiProperty::from_str(line).unwrap();
    assert_eq!(row.codepoints, range(0x1FA6E, 0x1FFFD));
    assert_eq!(row.property, "Extended_Pictographic");
}

#[test]
fn derived_bidi_class_parse_single() {
    let line = "00B5          ; L # L&       MICRO SIGN\n";
    let row = DerivedBidiClass::from_str(line).unwrap();
    assert_eq!(row.codepoints, single(0x00B5));
    assert_eq!(row.bidi_class, "L");
}

#[test]
fn derived_bidi_class_parse_range() {
    let line = "0030..0039    ; EN # Nd  [10] DIGIT ZERO..DIGIT NINE\n";
    let row = DerivedBidiClass::from_str(line).unwrap();
    assert_eq!(row.codepoints, range(0x0030, 0x0039));
    assert_eq!(row.bidi_class, "EN");
}

#[test]
fn derived_binary_properties_parse_single() {
    let line =
        "0028          ; Bidi_Mirrored # Ps       LEFT PARENTHESIS\n";
    let row = DerivedBinaryProperties::from_str(line).unwrap();
    assert_eq!(row.codepoints, single(0x0028));
    assert_eq!(row.property, "Bidi_Mirrored");
}

#[test]
fn derived_binary_properties_parse_range() {
    let line =  "2A3C..2A3E    ; Bidi_Mirrored # Sm   [3] INTERIOR PRODUCT..Z NOTATION RELATIONAL COMPOSITION\n";
    let row = DerivedBinaryProperties::from_str(line).unwrap();
    assert_eq!(row.codepoints, range(0x2A3C, 0x2A3E));
    assert_eq!(row.property, "Bidi_Mirrored");
}

#[test]
fn derived_combining_class_parse_single() {
    let line = "0020          ; 0 # Zs       SPACE\n";
    let row = DerivedCombiningClass::from_str(line).unwrap();
    assert_eq!(row.codepoints, single(0x0020));
    assert_eq!(row.combining_class, "0");
}

#[test]
fn derived_combining_class_parse_range() {
    let line =  "1DD1..1DF5    ; 230 # Mn  [37] COMBINING UR ABOVE..COMBINING UP TACK ABOVE\n";
    let row = DerivedCombiningClass::from_str(line).unwrap();
    assert_eq!(row.codepoints, range(0x1DD1, 0x1DF5));
    assert_eq!(row.combining_class, "230");
}

#[test]
fn derived_decomposition_type_parse_single() {
    let line = "00A0          ; Nobreak # Zs       NO-BREAK SPACE\n";
    let row = DerivedDecompositionType::from_str(line).unwrap();
    assert_eq!(row.codepoints, single(0x00A0));
    assert_eq!(row.decomposition_type, "Nobreak");
}

#[test]
fn derived_decomposition_type_parse_range() {
    let line =  "3070..3071    ; Canonical # Lo   [2] HIRAGANA LETTER BA..HIRAGANA LETTER PA\n";
    let row = DerivedDecompositionType::from_str(line).unwrap();
    assert_eq!(row.codepoints, range(0x3070, 0x3071));
    assert_eq!(row.decomposition_type, "Canonical");
}

#[test]
fn derived_east_asian_width_parse_single() {
    let line = "00A0          ; N # Zs       NO-BREAK SPACE\n";
    let row = DerivedEastAsianWidth::from_str(line).unwrap();
    assert_eq!(row.codepoints, single(0x00A0));
    assert_eq!(row.east_asian_width, "N");
}

#[test]
fn derived_east_asian_width_parse_range() {
    let line =  "FF10..FF19    ; F # Nd  [10] FULLWIDTH DIGIT ZERO..FULLWIDTH DIGIT NINE\n";
    let row = DerivedEastAsianWidth::from_str(line).unwrap();
    assert_eq!(row.codepoints, range(0xFF10, 0xFF19));
    assert_eq!(row.east_asian_width, "F");
}

#[test]
fn derived_general_category_parse_single() {
    let line = "04D9          ; Ll #       CYRILLIC SMALL LETTER SCHWA\n";
    let row = DerivedGeneralCategory::from_str(line).unwrap();
    assert_eq!(row.codepoints, single(0x04D9));
    assert_eq!(row.general_category, "Ll");
}

#[test]
fn derived_general_category_parse_range() {
    let line =  "0660..0669    ; Nd #  [10] ARABIC-INDIC DIGIT ZERO..ARABIC-INDIC DIGIT NINE";
    let row = DerivedGeneralCategory::from_str(line).unwrap();
    assert_eq!(row.codepoints, range(0x0660, 0x0669));
    assert_eq!(row.general_category, "Nd");
}

#[test]
fn derived_joining_group_parse_single() {
    let line = "0710          ; Alaph # Lo       SYRIAC LETTER ALAPH\n";
    let row = DerivedJoiningGroup::from_str(line).unwrap();
    assert_eq!(row.codepoints, single(0x0710));
    assert_eq!(row.joining_group, "Alaph");
}

#[test]
fn derived_joining_group_parse_range() {
    let line =  "0633..0634    ; Seen # Lo   [2] ARABIC LETTER SEEN..ARABIC LETTER SHEEN\n";
    let row = DerivedJoiningGroup::from_str(line).unwrap();
    assert_eq!(row.codepoints, range(0x0633, 0x0634));
    assert_eq!(row.joining_group, "Seen");
}

#[test]
fn derived_joining_type_parse_single() {
    let line = "0628          ; D # Lo       ARABIC LETTER BEH\n";
    let row = DerivedJoiningType::from_str(line).unwrap();
    assert_eq!(row.codepoints, single(0x0628));
    assert_eq!(row.joining_type, "D");
}

#[test]
fn derived_joining_type_parse_range() {
    let line =  "1133B..1133C  ; T # Mn   [2] COMBINING BINDU BELOW..GRANTHA SIGN NUKTA\n";
    let row = DerivedJoiningType::from_str(line).unwrap();
    assert_eq!(row.codepoints, range(0x1133B, 0x1133C));
    assert_eq!(row.joining_type, "T");
}

#[test]
fn derived_line_break_parse_single() {
    let line = "0028          ; OP # Ps       LEFT PARENTHESIS\n";
    let row = DerivedLineBreak::from_str(line).unwrap();
    assert_eq!(row.codepoints, single(0x0028));
    assert_eq!(row.line_break, "OP");
}

#[test]
fn derived_line_break_parse_range() {
    let line = "0030..0039    ; NU # Nd  [10] DIGIT ZERO..DIGIT NINE\n";
    let row = DerivedLineBreak::from_str(line).unwrap();
    assert_eq!(row.codepoints, range(0x0030, 0x0039));
    assert_eq!(row.line_break, "NU");
}

#[test]
fn derived_name_parse_single() {
    let line = "0021          ; EXCLAMATION MARK\n";
    let row = DerivedName::from_str(line).unwrap();
    assert_eq!(row.codepoints, single(0x0021));
    assert_eq!(row.name, "EXCLAMATION MARK");
}

#[test]
fn derived_name_parse_range() {
    let line = "3400..4DBF    ; CJK UNIFIED IDEOGRAPH-*\n";
    let row = DerivedName::from_str(line).unwrap();
    assert_eq!(row.codepoints, range(0x3400, 0x4DBF));
    assert_eq!(row.name, "CJK UNIFIED IDEOGRAPH-*");
}

#[test]
fn derived_numeric_type_parse_single() {
    let line =
        "2189          ; Numeric # No       VULGAR FRACTION ZERO THIRDS\n";
    let row = DerivedNumericType::from_str(line).unwrap();
    assert_eq!(row.codepoints, single(0x2189));
    assert_eq!(row.numeric_type, "Numeric");
}

#[test]
fn derived_numeric_type_parse_range() {
    let line =  "00B2..00B3    ; Digit # No   [2] SUPERSCRIPT TWO..SUPERSCRIPT THREE\n";
    let row = DerivedNumericType::from_str(line).unwrap();
    assert_eq!(row.codepoints, range(0x00B2, 0x00B3));
    assert_eq!(row.numeric_type, "Digit");
}

#[test]
fn derived_numeric_values_parse_single() {
    let line = "0030          ; 0.0 ; ; 0 # Nd       DIGIT ZERO\n";
    let row = DerivedNumericValues::from_str(line).unwrap();
    assert_eq!(row.codepoints, single(0x0030));
    assert_eq!(row.numeric_value_decimal, "0.0");
    assert_eq!(row.numeric_value_fraction, "0");
}

#[test]
fn derived_numeric_values_parse_range() {
    let line =  "11FC9..11FCA  ; 0.0625 ; ; 1/16 # No   [2] TAMIL FRACTION ONE SIXTEENTH-1..TAMIL FRACTION ONE SIXTEENTH-2\n";
    let row = DerivedNumericValues::from_str(line).unwrap();
    assert_eq!(row.codepoints, range(0x11FC9, 0x11FCA));
    assert_eq!(row.numeric_value_decimal, "0.0625");
    assert_eq!(row.numeric_value_fraction, "1/16");
}

#[test]
fn grapheme_cluster_break_parse_single() {
    let line = "093B          ; SpacingMark # Mc       DEVANAGARI VOWEL SIGN OOE\n";
    let row = GraphemeClusterBreak::from_str(line).unwrap();
    assert_eq!(row.codepoints, single(0x093B));
    assert_eq!(row.value, "SpacingMark");
}

#[test]
fn grapheme_cluster_break_parse_range() {
    let line = "1F1E6..1F1FF  ; Regional_Indicator # So  [26] REGIONAL INDICATOR SYMBOL LETTER A..REGIONAL INDICATOR SYMBOL LETTER Z\n";
    let row = GraphemeClusterBreak::from_str(line).unwrap();
    assert_eq!(row.codepoints, range(0x1F1E6, 0x1F1FF));
    assert_eq!(row.value, "Regional_Indicator");
}

#[test]
fn sentence_break_parse_single() {
    let line = "11445         ; Extend # Mc       NEWA SIGN VISARGA\n";
    let row = SentenceBreak::from_str(line).unwrap();
    assert_eq!(row.codepoints, single(0x11445));
    assert_eq!(row.value, "Extend");
}

#[test]
fn sentence_break_parse_range() {
    let line = "FE31..FE32    ; SContinue # Pd   [2] PRESENTATION FORM FOR VERTICAL EM DASH..PRESENTATION FORM FOR VERTICAL EN DASH\n";
    let row = SentenceBreak::from_str(line).unwrap();
    assert_eq!(row.codepoints, range(0xFE31, 0xFE32));
    assert_eq!(row.value, "SContinue");
}

#[test]
fn word_break_parse_single() {
    let line = "0A83          ; Extend # Mc       GUJARATI SIGN VISARGA\n";
    let row = WordBreak::from_str(line).unwrap();
    assert_eq!(row.codepoints, single(0x0A83));
    assert_eq!(row.value, "Extend");
}

#[test]
fn word_break_parse_range() {
    let line = "104A0..104A9  ; Numeric # Nd  [10] OSMANYA DIGIT ZERO..OSMANYA DIGIT NINE\n";
    let row = WordBreak::from_str(line).unwrap();
    assert_eq!(row.codepoints, range(0x104A0, 0x104A9));
    assert_eq!(row.value, "Numeric");
}

use ucd_generate::ucd_parse::common::{parse_codepoint_association, MAX_CODEPOINT};
use ucd_generate::ucd_parse::emoji_path;

#[test]
fn codepoints_at_their_bounds() {
    assert!(Codepoint::from_u32(MAX_CODEPOINT).is_ok());
    assert!(Codepoint::from_u32(MAX_CODEPOINT + 1).is_err());
    assert_eq!(codepoint(0xD800).value(), 0xD800);
    assert_eq!(single(7).first(), 7);
    assert_eq!(single(7).last(), 7);
    assert_eq!(range(3, 9).first(), 3);
    assert_eq!(range(3, 9).last(), 9);
}

#[test]
fn associations() {
    let (cps, value) = parse_codepoint_association("  10FFFF ;  a b  ; c").unwrap();
    assert_eq!((cps, value.as_str()), (single(0x10FFFF), "a b"));
    let (cps, value) = parse_codepoint_association("+41;x").unwrap();
    assert_eq!((cps, value.as_str()), (single(0x41), "x"));
    let (cps, value) = parse_codepoint_association("00ff; é\u{3000}# comment").unwrap();
    assert_eq!((cps, value.as_str()), (single(0xFF), "é"));
    let (cps, value) = parse_codepoint_association("0041..005A; # nothing but white space").unwrap();
    assert_eq!((cps, value.as_str()), (range(0x41, 0x5A), ""));
    let (cps, _) = parse_codepoint_association("0000000000000041;x").unwrap();
    assert_eq!(cps, single(0x41));
    let (cps, _) = parse_codepoint_association("005A..0041;x").unwrap();
    assert_eq!(cps, range(0x5A, 0x41));
}

#[test]
fn lines_that_are_no_associations() {
    for line in [
        "",
        "   ",
        "0041",
        "0041;",
        "0041;#",
        ";x",
        "0041 x; y",
        "110000; x",
        "FFFFFFFFF; x",
        "00G1; x",
        "0041..; x",
        "..0041; x",
        "0041...0042; x",
        "0041..005a; x",
        "+0041..0042; x",
        "0041..110000; x",
        "+; x",
    ] {
        assert!(parse_codepoint_association(line).is_err(), "{:?}", line);
    }
}

#[test]
fn parse_errors_have_a_kind_and_no_line() {
    let err = EastAsianWidth::from_str("no semicolon").unwrap_err();
    assert_eq!(err.line(), None);
    assert_eq!(err.message(), "invalid line");
    assert!(matches!(err.kind(), ucd_generate::ucd_parse::error::ErrorKind::Parse(_)));
    assert!(matches!(err.into_kind(), ucd_generate::ucd_parse::error::ErrorKind::Parse(_)));
}

#[test]
fn joining_types() {
    for (ty, letter) in [
        (JoiningType::RightJoining, "R"),
        (JoiningType::LeftJoining, "L"),
        (JoiningType::DualJoining, "D"),
        (JoiningType::JoinCausing, "C"),
        (JoiningType::NonJoining, "U"),
        (JoiningType::Transparent, "T"),
    ] {
        assert_eq!(ty.as_str(), letter);
        let chars: Vec<char> = letter.chars().collect();
        assert_eq!(JoiningType::from_chars(&chars, 0, 1), Some(ty));
    }
    let chars: Vec<char> = "RX".chars().collect();
    assert_eq!(JoiningType::from_chars(&chars, 0, 2), None);
    assert_eq!(JoiningType::from_chars(&chars, 1, 2), None);
    assert_eq!(JoiningType::from_chars(&chars, 1, 1), None);
}

#[test]
fn arabic_shaping_lines_that_do_not_parse() {
    for line in [
        "0600; NAME; U",
        "0600; NAME; X; Group",
        "0600; NAME; U ; Group",
        "0600; NAME; U; Group; more",
        "0600;; U; Group",
        "060g; NAME; U; Group",
        "110000; NAME; U; Group",
        "; NAME; U; Group",
    ] {
        assert!(ArabicShaping::from_str(line).is_err(), "{:?}", line);
    }
    let row = ArabicShaping::from_str("0600 ;  two words ;T;last  ").unwrap();
    assert_eq!(row.schematic_name, "two words ");
    assert_eq!(row.joining_type, JoiningType::Transparent);
    assert_eq!(row.joining_group, "last");
}

#[test]
fn bidi_mirroring_lines_that_do_not_parse() {
    for line in [
        "0028; 0029",
        "0028; 0029 #",
        "0028; 0029# LEFT",
        "0028 0029 # LEFT",
        "0028; 002g # LEFT",
        "0028; 0029 # LEFT\nRIGHT",
        "0028; 110000 # LEFT",
    ] {
        assert!(BidiMirroring::from_str(line).is_err(), "{:?}", line);
    }
    assert!(BidiMirroring::from_str("  0028 ;0029\t#x  ").is_ok());
}

#[test]
fn numeric_value_lines_that_do_not_parse() {
    for line in ["0030 ; 0.0 ; ; ", "0030 ; 0.0 ; 0", "0030 ; ; ; 0", "0030 ; 0.0 ; x ; 0", "003g ; 0.0 ; ; 0"] {
        assert!(DerivedNumericValues::from_str(line).is_err(), "{:?}", line);
    }
    let row = DerivedNumericValues::from_str("0030..0031;1;;1/2;rest").unwrap();
    assert_eq!(row.codepoints, range(0x30, 0x31));
    assert_eq!(row.numeric_value_fraction, "1/2");
}

#[test]
fn files_of_the_rows() {
    assert_eq!(ArabicShaping::relative_file_path(), "ArabicShaping.txt");
    assert_eq!(BidiMirroring::relative_file_path(), "BidiMirroring.txt");
    assert_eq!(EmojiProperty::relative_file_path(), "emoji/emoji-data.txt");
    assert_eq!(DerivedName::relative_file_path(), "extracted/DerivedName.txt");
    assert_eq!(WordBreak::relative_file_path(), "auxiliary/WordBreakProperty.txt");
    assert_eq!(emoji_path(true), "emoji/emoji-data.txt");
    assert_eq!(emoji_path(false), "emoji-data.txt");
}

#[test]
fn codepoints_of_rows() {
    let shaping = ArabicShaping::from_str("0628; BEH; D; BEH").unwrap();
    let all = shaping.codepoints();
    assert_eq!((all.first(), all.last()), (0x628, 0x628));
    let width = ucd_generate::ucd_parse::rows::EastAsianWidth::from_str("3000..3002;F").unwrap();
    let all = width.codepoints();
    assert_eq!((all.first(), all.last()), (0x3000, 0x3002));
    assert_eq!(all, width.codepoints);
    assert_eq!(JoiningType::default(), JoiningType::NonJoining);
}
