//! Rows of the files of the directory `extracted`, which give the derived
//! values of properties.

use vstd::prelude::*;
use vstd::string::*;
use crate::ucd_parse::common::{
    association,
    codepoints_of,
    dots_at,
    find_word_end,
    lemma_scans_in_range,
    parse_codepoint_association,
    parse_codepoints,
    skip_whitespace,
    skip_ws,
    slice_of,
    trimmed,
    trimmed_chars,
    word_end,
    Codepoints,
};
use crate::ucd_parse::error::Error;
use crate::ucd_parse::rows::row_of;

verus! {

/// A row of `extracted/DerivedBidiClass.txt`, which gives the derived `Bidi_Class` property.
#[derive(Debug, PartialEq, Eq)]
pub struct DerivedBidiClass {
    /// The codepoint or the range of codepoints of the row.
    pub codepoints: Codepoints,
    /// The `Bidi_Class` of the codepoints.
    pub bidi_class: String,
}

impl DerivedBidiClass {
    /// The codepoints of the row.
    pub fn codepoints(&self) -> (all: Codepoints)
        ensures
            all == self.codepoints,
    {
        self.codepoints
    }

    /// Where the file lies in the database.
    pub fn relative_file_path() -> (path: &'static str)
        ensures
            path@ == "extracted/DerivedBidiClass.txt"@,
    {
        "extracted/DerivedBidiClass.txt"
    }

    /// Parses a line of the file: the codepoints, a semicolon and the
    /// value, which a comment may follow.
    pub fn from_str(line: &str) -> (r: Result<DerivedBidiClass, Error>)
        ensures
            r is Ok <==> association(line@) is Some,
            r is Ok ==> row_of(line@, r->Ok_0.codepoints, r->Ok_0.bidi_class@),
    {
        match parse_codepoint_association(line) {
            Ok((codepoints, bidi_class)) => Ok(DerivedBidiClass { codepoints, bidi_class }),
            Err(e) => Err(e),
        }
    }
}

/// A row of `extracted/DerivedBinaryProperties.txt`, which gives the codepoints with the `Bidi_Mirrored` property.
#[derive(Debug, PartialEq, Eq)]
pub struct DerivedBinaryProperties {
    /// The codepoint or the range of codepoints of the row.
    pub codepoints: Codepoints,
    /// The property that the codepoints have, which is `Bidi_Mirrored`.
    pub property: String,
}

impl DerivedBinaryProperties {
    /// The codepoints of the row.
    pub fn codepoints(&self) -> (all: Codepoints)
        ensures
            all == self.codepoints,
    {
        self.codepoints
    }

    /// Where the file lies in the database.
    pub fn relative_file_path() -> (path: &'static str)
        ensures
            path@ == "extracted/DerivedBinaryProperties.txt"@,
    {
        "extracted/DerivedBinaryProperties.txt"
    }

    /// Parses a line of the file: the codepoints, a semicolon and the
    /// value, which a comment may follow.
    pub fn from_str(line: &str) -> (r: Result<DerivedBinaryProperties, Error>)
        ensures
            r is Ok <==> association(line@) is Some,
            r is Ok ==> row_of(line@, r->Ok_0.codepoints, r->Ok_0.property@),
    {
        match parse_codepoint_association(line) {
            Ok((codepoints, property)) => Ok(DerivedBinaryProperties { codepoints, property }),
            Err(e) => Err(e),
        }
    }
}

/// A row of `extracted/DerivedCombiningClass.txt`, which gives the derived `Canonical_Combining_Class` property.
#[derive(Debug, PartialEq, Eq)]
pub struct DerivedCombiningClass {
    /// The codepoint or the range of codepoints of the row.
    pub codepoints: Codepoints,
    /// The `Canonical_Combining_Class` of the codepoints.
    pub combining_class: String,
}

impl DerivedCombiningClass {
    /// The codepoints of the row.
    pub fn codepoints(&self) -> (all: Codepoints)
        ensures
            all == self.codepoints,
    {
        self.codepoints
    }

    /// Where the file lies in the database.
    pub fn relative_file_path() -> (path: &'static str)
        ensures
            path@ == "extracted/DerivedCombiningClass.txt"@,
    {
        "extracted/DerivedCombiningClass.txt"
    }

    /// Parses a line of the file: the codepoints, a semicolon and the
    /// value, which a comment may follow.
    pub fn from_str(line: &str) -> (r: Result<DerivedCombiningClass, Error>)
        ensures
            r is Ok <==> association(line@) is Some,
            r is Ok ==> row_of(line@, r->Ok_0.codepoints, r->Ok_0.combining_class@),
    {
        match parse_codepoint_association(line) {
            Ok((codepoints, combining_class)) => Ok(DerivedCombiningClass { codepoints, combining_class }),
            Err(e) => Err(e),
        }
    }
}

/// A row of `extracted/DerivedDecompositionType.txt`, which gives the derived `Decomposition_Type` property.
#[derive(Debug, PartialEq, Eq)]
pub struct DerivedDecompositionType {
    /// The codepoint or the range of codepoints of the row.
    pub codepoints: Codepoints,
    /// The `Decomposition_Type` of the codepoints.
    pub decomposition_type: String,
}

impl DerivedDecompositionType {
    /// The codepoints of the row.
    pub fn codepoints(&self) -> (all: Codepoints)
        ensures
            all == self.codepoints,
    {
        self.codepoints
    }

    /// Where the file lies in the database.
    pub fn relative_file_path() -> (path: &'static str)
        ensures
            path@ == "extracted/DerivedDecompositionType.txt"@,
    {
        "extracted/DerivedDecompositionType.txt"
    }

    /// Parses a line of the file: the codepoints, a semicolon and the
    /// value, which a comment may follow.
    pub fn from_str(line: &str) -> (r: Result<DerivedDecompositionType, Error>)
        ensures
            r is Ok <==> association(line@) is Some,
            r is Ok ==> row_of(line@, r->Ok_0.codepoints, r->Ok_0.decomposition_type@),
    {
        match parse_codepoint_association(line) {
            Ok((codepoints, decomposition_type)) => Ok(DerivedDecompositionType { codepoints, decomposition_type }),
            Err(e) => Err(e),
        }
    }
}

/// A row of `extracted/DerivedEastAsianWidth.txt`, which gives the derived `East_Asian_Width` property.
#[derive(Debug, PartialEq, Eq)]
pub struct DerivedEastAsianWidth {
    /// The codepoint or the range of codepoints of the row.
    pub codepoints: Codepoints,
    /// The `East_Asian_Width` of the codepoints.
    pub east_asian_width: String,
}

impl DerivedEastAsianWidth {
    /// The codepoints of the row.
    pub fn codepoints(&self) -> (all: Codepoints)
        ensures
            all == self.codepoints,
    {
        self.codepoints
    }

    /// Where the file lies in the database.
    pub fn relative_file_path() -> (path: &'static str)
        ensures
            path@ == "extracted/DerivedEastAsianWidth.txt"@,
    {
        "extracted/DerivedEastAsianWidth.txt"
    }

    /// Parses a line of the file: the codepoints, a semicolon and the
    /// value, which a comment may follow.
    pub fn from_str(line: &str) -> (r: Result<DerivedEastAsianWidth, Error>)
        ensures
            r is Ok <==> association(line@) is Some,
            r is Ok ==> row_of(line@, r->Ok_0.codepoints, r->Ok_0.east_asian_width@),
    {
        match parse_codepoint_association(line) {
            Ok((codepoints, east_asian_width)) => Ok(DerivedEastAsianWidth { codepoints, east_asian_width }),
            Err(e) => Err(e),
        }
    }
}

/// A row of `extracted/DerivedGeneralCategory.txt`, which gives the derived `General_Category` property.
#[derive(Debug, PartialEq, Eq)]
pub struct DerivedGeneralCategory {
    /// The codepoint or the range of codepoints of the row.
    pub codepoints: Codepoints,
    /// The `General_Category` of the codepoints.
    pub general_category: String,
}

impl DerivedGeneralCategory {
    /// The codepoints of the row.
    pub fn codepoints(&self) -> (all: Codepoints)
        ensures
            all == self.codepoints,
    {
        self.codepoints
    }

    /// Where the file lies in the database.
    pub fn relative_file_path() -> (path: &'static str)
        ensures
            path@ == "extracted/DerivedGeneralCategory.txt"@,
    {
        "extracted/DerivedGeneralCategory.txt"
    }

    /// Parses a line of the file: the codepoints, a semicolon and the
    /// value, which a comment may follow.
    pub fn from_str(line: &str) -> (r: Result<DerivedGeneralCategory, Error>)
        ensures
            r is Ok <==> association(line@) is Some,
            r is Ok ==> row_of(line@, r->Ok_0.codepoints, r->Ok_0.general_category@),
    {
        match parse_codepoint_association(line) {
            Ok((codepoints, general_category)) => Ok(DerivedGeneralCategory { codepoints, general_category }),
            Err(e) => Err(e),
        }
    }
}

/// A row of `extracted/DerivedJoiningGroup.txt`, which gives the derived `Joining_Group` property.
#[derive(Debug, PartialEq, Eq)]
pub struct DerivedJoiningGroup {
    /// The codepoint or the range of codepoints of the row.
    pub codepoints: Codepoints,
    /// The `Joining_Group` of the codepoints.
    pub joining_group: String,
}

impl DerivedJoiningGroup {
    /// The codepoints of the row.
    pub fn codepoints(&self) -> (all: Codepoints)
        ensures
            all == self.codepoints,
    {
        self.codepoints
    }

    /// Where the file lies in the database.
    pub fn relative_file_path() -> (path: &'static str)
        ensures
            path@ == "extracted/DerivedJoiningGroup.txt"@,
    {
        "extracted/DerivedJoiningGroup.txt"
    }

    /// Parses a line of the file: the codepoints, a semicolon and the
    /// value, which a comment may follow.
    pub fn from_str(line: &str) -> (r: Result<DerivedJoiningGroup, Error>)
        ensures
            r is Ok <==> association(line@) is Some,
            r is Ok ==> row_of(line@, r->Ok_0.codepoints, r->Ok_0.joining_group@),
    {
        match parse_codepoint_association(line) {
            Ok((codepoints, joining_group)) => Ok(DerivedJoiningGroup { codepoints, joining_group }),
            Err(e) => Err(e),
        }
    }
}

/// A row of `extracted/DerivedJoiningType.txt`, which gives the derived `Joining_Type` property.
#[derive(Debug, PartialEq, Eq)]
pub struct DerivedJoiningType {
    /// The codepoint or the range of codepoints of the row.
    pub codepoints: Codepoints,
    /// The `Joining_Type` of the codepoints.
    pub joining_type: String,
}

impl DerivedJoiningType {
    /// The codepoints of the row.
    pub fn codepoints(&self) -> (all: Codepoints)
        ensures
            all == self.codepoints,
    {
        self.codepoints
    }

    /// Where the file lies in the database.
    pub fn relative_file_path() -> (path: &'static str)
        ensures
            path@ == "extracted/DerivedJoiningType.txt"@,
    {
        "extracted/DerivedJoiningType.txt"
    }

    /// Parses a line of the file: the codepoints, a semicolon and the
    /// value, which a comment may follow.
    pub fn from_str(line: &str) -> (r: Result<DerivedJoiningType, Error>)
        ensures
            r is Ok <==> association(line@) is Some,
            r is Ok ==> row_of(line@, r->Ok_0.codepoints, r->Ok_0.joining_type@),
    {
        match parse_codepoint_association(line) {
            Ok((codepoints, joining_type)) => Ok(DerivedJoiningType { codepoints, joining_type }),
            Err(e) => Err(e),
        }
    }
}

/// A row of `extracted/DerivedLineBreak.txt`, which gives the derived `Line_Break` property.
#[derive(Debug, PartialEq, Eq)]
pub struct DerivedLineBreak {
    /// The codepoint or the range of codepoints of the row.
    pub codepoints: Codepoints,
    /// The `Line_Break` of the codepoints.
    pub line_break: String,
}

impl DerivedLineBreak {
    /// The codepoints of the row.
    pub fn codepoints(&self) -> (all: Codepoints)
        ensures
            all == self.codepoints,
    {
        self.codepoints
    }

    /// Where the file lies in the database.
    pub fn relative_file_path() -> (path: &'static str)
        ensures
            path@ == "extracted/DerivedLineBreak.txt"@,
    {
        "extracted/DerivedLineBreak.txt"
    }

    /// Parses a line of the file: the codepoints, a semicolon and the
    /// value, which a comment may follow.
    pub fn from_str(line: &str) -> (r: Result<DerivedLineBreak, Error>)
        ensures
            r is Ok <==> association(line@) is Some,
            r is Ok ==> row_of(line@, r->Ok_0.codepoints, r->Ok_0.line_break@),
    {
        match parse_codepoint_association(line) {
            Ok((codepoints, line_break)) => Ok(DerivedLineBreak { codepoints, line_break }),
            Err(e) => Err(e),
        }
    }
}

/// A row of `extracted/DerivedName.txt`, which gives the derived `Name` property.
#[derive(Debug, PartialEq, Eq)]
pub struct DerivedName {
    /// The codepoint or the range of codepoints of the row.
    pub codepoints: Codepoints,
    /// The `Name` of the codepoints.
    pub name: String,
}

impl DerivedName {
    /// The codepoints of the row.
    pub fn codepoints(&self) -> (all: Codepoints)
        ensures
            all == self.codepoints,
    {
        self.codepoints
    }

    /// Where the file lies in the database.
    pub fn relative_file_path() -> (path: &'static str)
        ensures
            path@ == "extracted/DerivedName.txt"@,
    {
        "extracted/DerivedName.txt"
    }

    /// Parses a line of the file: the codepoints, a semicolon and the
    /// value, which a comment may follow.
    pub fn from_str(line: &str) -> (r: Result<DerivedName, Error>)
        ensures
            r is Ok <==> association(line@) is Some,
            r is Ok ==> row_of(line@, r->Ok_0.codepoints, r->Ok_0.name@),
    {
        match parse_codepoint_association(line) {
            Ok((codepoints, name)) => Ok(DerivedName { codepoints, name }),
            Err(e) => Err(e),
        }
    }
}

/// A row of `extracted/DerivedNumericType.txt`, which gives the derived `Numeric_Type` property.
#[derive(Debug, PartialEq, Eq)]
pub struct DerivedNumericType {
    /// The codepoint or the range of codepoints of the row.
    pub codepoints: Codepoints,
    /// The `Numeric_Type` of the codepoints.
    pub numeric_type: String,
}

impl DerivedNumericType {
    /// The codepoints of the row.
    pub fn codepoints(&self) -> (all: Codepoints)
        ensures
            all == self.codepoints,
    {
        self.codepoints
    }

    /// Where the file lies in the database.
    pub fn relative_file_path() -> (path: &'static str)
        ensures
            path@ == "extracted/DerivedNumericType.txt"@,
    {
        "extracted/DerivedNumericType.txt"
    }

    /// Parses a line of the file: the codepoints, a semicolon and the
    /// value, which a comment may follow.
    pub fn from_str(line: &str) -> (r: Result<DerivedNumericType, Error>)
        ensures
            r is Ok <==> association(line@) is Some,
            r is Ok ==> row_of(line@, r->Ok_0.codepoints, r->Ok_0.numeric_type@),
    {
        match parse_codepoint_association(line) {
            Ok((codepoints, numeric_type)) => Ok(DerivedNumericType { codepoints, numeric_type }),
            Err(e) => Err(e),
        }
    }
}

/// A row of `extracted/DerivedNumericValues.txt`, which gives the derived
/// `Numeric_Value` property.
#[derive(Debug, PartialEq, Eq)]
pub struct DerivedNumericValues {
    /// The codepoint or the range of codepoints of the row.
    pub codepoints: Codepoints,
    /// The value as a decimal numeral, which may be rounded.
    pub numeric_value_decimal: String,
    /// The exact value as a fraction.
    pub numeric_value_fraction: String,
}

/// What a line of `extracted/DerivedNumericValues.txt` denotes: the
/// positions in the trimmed line of the codepoints, of the decimal numeral
/// in the second field and of the fraction in the fourth. The third field
/// is empty.
pub open spec fn numeric_values(line: Seq<char>) -> Option<(int, int, int, int, int)> {
    let t = trimmed(line);
    let a = word_end(t, 0);
    let semi1 = skip_ws(t, a);
    if a == 0 || semi1 >= t.len() || t[semi1] != ';' {
        None
    } else {
        let d0 = skip_ws(t, semi1 + 1);
        let d1 = word_end(t, d0);
        let semi2 = skip_ws(t, d1);
        if d1 == d0 || semi2 >= t.len() || t[semi2] != ';' {
            None
        } else {
            let semi3 = skip_ws(t, semi2 + 1);
            if semi3 >= t.len() || t[semi3] != ';' {
                None
            } else {
                let f0 = skip_ws(t, semi3 + 1);
                let f1 = word_end(t, f0);
                if f1 == f0 || codepoints_of(t.subrange(0, a)) is None {
                    None
                } else {
                    Some((a, d0, d1, f0, f1))
                }
            }
        }
    }
}

impl DerivedNumericValues {
    /// The codepoints of the row.
    pub fn codepoints(&self) -> (all: Codepoints)
        ensures
            all == self.codepoints,
    {
        self.codepoints
    }

    /// Where the file lies in the database.
    pub fn relative_file_path() -> (path: &'static str)
        ensures
            path@ == "extracted/DerivedNumericValues.txt"@,
    {
        "extracted/DerivedNumericValues.txt"
    }

    /// Parses a line of the file.
    pub fn from_str(line: &str) -> (r: Result<DerivedNumericValues, Error>)
        ensures
            match numeric_values(line@) {
                Some((a, d0, d1, f0, f1)) => {
                    let t = trimmed(line@);
                    &&& r is Ok
                    &&& Some(r->Ok_0.codepoints.bounds()) == codepoints_of(t.subrange(0, a))
                    &&& r->Ok_0.codepoints is Range <==> dots_at(t.subrange(0, a), 0) is Some
                    &&& r->Ok_0.numeric_value_decimal@ == t.subrange(d0, d1)
                    &&& r->Ok_0.numeric_value_fraction@ == t.subrange(f0, f1)
                },
                None => r is Err,
            },
    {
        let (t, offset) = trimmed_chars(line);
        proof {
            lemma_scans_in_range(t@, 0);
        }
        let a = find_word_end(&t, 0);
        let semi1 = skip_whitespace(&t, a);
        if a == 0 || semi1 >= t.len() || t[semi1] != ';' {
            return Err(Error::parse("invalid line"));
        }
        let d0 = skip_whitespace(&t, semi1 + 1);
        let d1 = find_word_end(&t, d0);
        let semi2 = skip_whitespace(&t, d1);
        if d1 == d0 || semi2 >= t.len() || t[semi2] != ';' {
            return Err(Error::parse("invalid line"));
        }
        let semi3 = skip_whitespace(&t, semi2 + 1);
        if semi3 >= t.len() || t[semi3] != ';' {
            return Err(Error::parse("invalid line"));
        }
        let f0 = skip_whitespace(&t, semi3 + 1);
        let f1 = find_word_end(&t, f0);
        if f1 == f0 {
            return Err(Error::parse("invalid line"));
        }
        let codepoints = match parse_codepoints(&t, 0, a) {
            Some(codepoints) => codepoints,
            None => {
                return Err(Error::parse("invalid codepoints"));
            },
        };
        Ok(
            DerivedNumericValues {
                codepoints,
                numeric_value_decimal: slice_of(line, offset, d0, d1, Ghost(t@)),
                numeric_value_fraction: slice_of(line, offset, f0, f1, Ghost(t@)),
            },
        )
    }
}

} // verus!
