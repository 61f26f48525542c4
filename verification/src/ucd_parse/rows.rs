//! Rows of the files that give codepoints a property or a value.

use vstd::prelude::*;
use vstd::string::*;
use crate::ucd_parse::common::{association, parse_codepoint_association, Codepoints};
use crate::ucd_parse::error::Error;

verus! {

/// Whether `codepoints` and `value` are what the line denotes.
pub open spec fn row_of(line: Seq<char>, codepoints: Codepoints, value: Seq<char>) -> bool {
    association(line) matches Some((bounds, is_range, text)) && codepoints.bounds() == bounds && (
    codepoints is Range <==> is_range) && value == text
}

/// A row of `DerivedNormalizationProps.txt`, which gives the derived normalization properties.
#[derive(Debug, PartialEq, Eq)]
pub struct DerivedNormalizationProperty {
    /// The codepoint or the range of codepoints of the row.
    pub codepoints: Codepoints,
    /// The name of the property that the codepoints have.
    pub property: String,
}

impl DerivedNormalizationProperty {
    /// The codepoints of the row.
    pub fn codepoints(&self) -> (all: Codepoints)
        ensures
            all == self.codepoints,
    {
        self.codepoints
    }

    /// Where the file lies in the database.
    pub fn relative_file_path() -> (path: &'static str)
        ensures
            path@ == "DerivedNormalizationProps.txt"@,
    {
        "DerivedNormalizationProps.txt"
    }

    /// Parses a line of the file: the codepoints, a semicolon and the
    /// value, which a comment may follow.
    pub fn from_str(line: &str) -> (r: Result<DerivedNormalizationProperty, Error>)
        ensures
            r is Ok <==> association(line@) is Some,
            r is Ok ==> row_of(line@, r->Ok_0.codepoints, r->Ok_0.property@),
    {
        match parse_codepoint_association(line) {
            Ok((codepoints, property)) => Ok(DerivedNormalizationProperty { codepoints, property }),
            Err(e) => Err(e),
        }
    }
}

/// A row of `EastAsianWidth.txt`, which gives the `East_Asian_Width` property; a codepoint that the file does not list has the width `N`.
#[derive(Debug, PartialEq, Eq)]
pub struct EastAsianWidth {
    /// The codepoint or the range of codepoints of the row.
    pub codepoints: Codepoints,
    /// The width: one of `A`, `F`, `H`, `N`, `Na` and `W`.
    pub width: String,
}

impl EastAsianWidth {
    /// The codepoints of the row.
    pub fn codepoints(&self) -> (all: Codepoints)
        ensures
            all == self.codepoints,
    {
        self.codepoints
    }

    /// Where the file lies in the database.
    pub fn relative_file_path() -> (path: &'static str)
        ensures
            path@ == "EastAsianWidth.txt"@,
    {
        "EastAsianWidth.txt"
    }

    /// Parses a line of the file: the codepoints, a semicolon and the
    /// value, which a comment may follow.
    pub fn from_str(line: &str) -> (r: Result<EastAsianWidth, Error>)
        ensures
            r is Ok <==> association(line@) is Some,
            r is Ok ==> row_of(line@, r->Ok_0.codepoints, r->Ok_0.width@),
    {
        match parse_codepoint_association(line) {
            Ok((codepoints, width)) => Ok(EastAsianWidth { codepoints, width }),
            Err(e) => Err(e),
        }
    }
}

/// A row of `emoji/emoji-data.txt`, which gives the emoji properties.
#[derive(Debug, PartialEq, Eq)]
pub struct EmojiProperty {
    /// The codepoint or the range of codepoints of the row.
    pub codepoints: Codepoints,
    /// The name of the property that the codepoints have.
    pub property: String,
}

impl EmojiProperty {
    /// The codepoints of the row.
    pub fn codepoints(&self) -> (all: Codepoints)
        ensures
            all == self.codepoints,
    {
        self.codepoints
    }

    /// Where the file lies in the database.
    pub fn relative_file_path() -> (path: &'static str)
        ensures
            path@ == "emoji/emoji-data.txt"@,
    {
        "emoji/emoji-data.txt"
    }

    /// Parses a line of the file: the codepoints, a semicolon and the
    /// value, which a comment may follow.
    pub fn from_str(line: &str) -> (r: Result<EmojiProperty, Error>)
        ensures
            r is Ok <==> association(line@) is Some,
            r is Ok ==> row_of(line@, r->Ok_0.codepoints, r->Ok_0.property@),
    {
        match parse_codepoint_association(line) {
            Ok((codepoints, property)) => Ok(EmojiProperty { codepoints, property }),
            Err(e) => Err(e),
        }
    }
}

/// A row of `auxiliary/GraphemeBreakProperty.txt`, which gives the `Grapheme_Cluster_Break` property.
#[derive(Debug, PartialEq, Eq)]
pub struct GraphemeClusterBreak {
    /// The codepoint or the range of codepoints of the row.
    pub codepoints: Codepoints,
    /// The value of the property for the codepoints.
    pub value: String,
}

impl GraphemeClusterBreak {
    /// The codepoints of the row.
    pub fn codepoints(&self) -> (all: Codepoints)
        ensures
            all == self.codepoints,
    {
        self.codepoints
    }

    /// Where the file lies in the database.
    pub fn relative_file_path() -> (path: &'static str)
        ensures
            path@ == "auxiliary/GraphemeBreakProperty.txt"@,
    {
        "auxiliary/GraphemeBreakProperty.txt"
    }

    /// Parses a line of the file: the codepoints, a semicolon and the
    /// value, which a comment may follow.
    pub fn from_str(line: &str) -> (r: Result<GraphemeClusterBreak, Error>)
        ensures
            r is Ok <==> association(line@) is Some,
            r is Ok ==> row_of(line@, r->Ok_0.codepoints, r->Ok_0.value@),
    {
        match parse_codepoint_association(line) {
            Ok((codepoints, value)) => Ok(GraphemeClusterBreak { codepoints, value }),
            Err(e) => Err(e),
        }
    }
}

/// A row of `auxiliary/SentenceBreakProperty.txt`, which gives the `Sentence_Break` property.
#[derive(Debug, PartialEq, Eq)]
pub struct SentenceBreak {
    /// The codepoint or the range of codepoints of the row.
    pub codepoints: Codepoints,
    /// The value of the property for the codepoints.
    pub value: String,
}

impl SentenceBreak {
    /// The codepoints of the row.
    pub fn codepoints(&self) -> (all: Codepoints)
        ensures
            all == self.codepoints,
    {
        self.codepoints
    }

    /// Where the file lies in the database.
    pub fn relative_file_path() -> (path: &'static str)
        ensures
            path@ == "auxiliary/SentenceBreakProperty.txt"@,
    {
        "auxiliary/SentenceBreakProperty.txt"
    }

    /// Parses a line of the file: the codepoints, a semicolon and the
    /// value, which a comment may follow.
    pub fn from_str(line: &str) -> (r: Result<SentenceBreak, Error>)
        ensures
            r is Ok <==> association(line@) is Some,
            r is Ok ==> row_of(line@, r->Ok_0.codepoints, r->Ok_0.value@),
    {
        match parse_codepoint_association(line) {
            Ok((codepoints, value)) => Ok(SentenceBreak { codepoints, value }),
            Err(e) => Err(e),
        }
    }
}

/// A row of `auxiliary/WordBreakProperty.txt`, which gives the `Word_Break` property.
#[derive(Debug, PartialEq, Eq)]
pub struct WordBreak {
    /// The codepoint or the range of codepoints of the row.
    pub codepoints: Codepoints,
    /// The value of the property for the codepoints.
    pub value: String,
}

impl WordBreak {
    /// The codepoints of the row.
    pub fn codepoints(&self) -> (all: Codepoints)
        ensures
            all == self.codepoints,
    {
        self.codepoints
    }

    /// Where the file lies in the database.
    pub fn relative_file_path() -> (path: &'static str)
        ensures
            path@ == "auxiliary/WordBreakProperty.txt"@,
    {
        "auxiliary/WordBreakProperty.txt"
    }

    /// Parses a line of the file: the codepoints, a semicolon and the
    /// value, which a comment may follow.
    pub fn from_str(line: &str) -> (r: Result<WordBreak, Error>)
        ensures
            r is Ok <==> association(line@) is Some,
            r is Ok ==> row_of(line@, r->Ok_0.codepoints, r->Ok_0.value@),
    {
        match parse_codepoint_association(line) {
            Ok((codepoints, value)) => Ok(WordBreak { codepoints, value }),
            Err(e) => Err(e),
        }
    }
}

} // verus!
