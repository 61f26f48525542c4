//! Rows of `ArabicShaping.txt`.

use vstd::prelude::*;
use vstd::string::*;
use crate::ucd_parse::common::{
    codepoint_of,
    field_at,
    find_field,
    find_hex_end,
    hex_end,
    lemma_scans_in_range,
    parse_codepoint,
    skip_whitespace,
    skip_ws,
    slice_of,
    trimmed,
    trimmed_chars,
    Codepoint,
    Codepoints,
};
use crate::ucd_parse::error::Error;

verus! {

/// How a character joins its neighbours in cursive writing.
#[derive(Clone, Copy, Debug, PartialEq, Eq, Structural)]
pub enum JoiningType {
    RightJoining,
    LeftJoining,
    DualJoining,
    JoinCausing,
    NonJoining,
    Transparent,
}

/// The letter that stands for a joining type in the file.
pub open spec fn joining_letter(ty: JoiningType) -> char {
    match ty {
        JoiningType::RightJoining => 'R',
        JoiningType::LeftJoining => 'L',
        JoiningType::DualJoining => 'D',
        JoiningType::JoinCausing => 'C',
        JoiningType::NonJoining => 'U',
        JoiningType::Transparent => 'T',
    }
}

/// The joining type that `s` stands for: `s` is one of the letters `R`,
/// `L`, `D`, `C`, `U` and `T`.
pub open spec fn joining_type_of(s: Seq<char>) -> Option<JoiningType> {
    if s.len() != 1 {
        None
    } else if s[0] == 'R' {
        Some(JoiningType::RightJoining)
    } else if s[0] == 'L' {
        Some(JoiningType::LeftJoining)
    } else if s[0] == 'D' {
        Some(JoiningType::DualJoining)
    } else if s[0] == 'C' {
        Some(JoiningType::JoinCausing)
    } else if s[0] == 'U' {
        Some(JoiningType::NonJoining)
    } else if s[0] == 'T' {
        Some(JoiningType::Transparent)
    } else {
        None
    }
}

impl Default for JoiningType {
    /// The joining type of a character that joins nothing.
    fn default() -> (ty: JoiningType)
        ensures
            ty == JoiningType::NonJoining,
    {
        JoiningType::NonJoining
    }
}

impl JoiningType {
    /// The letter that stands for the joining type in the file.
    pub fn as_str(&self) -> (s: &str)
        ensures
            s@ == seq![joining_letter(*self)],
    {
        proof {
            reveal_strlit("R");
            reveal_strlit("L");
            reveal_strlit("D");
            reveal_strlit("C");
            reveal_strlit("U");
            reveal_strlit("T");
        }
        let s = match self {
            JoiningType::RightJoining => "R",
            JoiningType::LeftJoining => "L",
            JoiningType::DualJoining => "D",
            JoiningType::JoinCausing => "C",
            JoiningType::NonJoining => "U",
            JoiningType::Transparent => "T",
        };
        assert(s@ =~= seq![joining_letter(*self)]);
        s
    }

    /// The joining type that the characters from `from` to `to` stand
    /// for.
    pub fn from_chars(s: &Vec<char>, from: usize, to: usize) -> (ty: Option<JoiningType>)
        requires
            from <= to <= s@.len(),
        ensures
            ty == joining_type_of(s@.subrange(from as int, to as int)),
    {
        if to - from != 1 {
            return None;
        }
        let c = s[from];
        assert(s@.subrange(from as int, to as int)[0] == c);
        if c == 'R' {
            Some(JoiningType::RightJoining)
        } else if c == 'L' {
            Some(JoiningType::LeftJoining)
        } else if c == 'D' {
            Some(JoiningType::DualJoining)
        } else if c == 'C' {
            Some(JoiningType::JoinCausing)
        } else if c == 'U' {
            Some(JoiningType::NonJoining)
        } else if c == 'T' {
            Some(JoiningType::Transparent)
        } else {
            None
        }
    }
}

/// A row of `ArabicShaping.txt`.
#[derive(Debug, PartialEq, Eq)]
pub struct ArabicShaping {
    /// The codepoint of the row.
    pub codepoint: Codepoint,
    /// A name that describes the shape of the character. It is a comment
    /// and no property.
    pub schematic_name: String,
    /// The joining type of the codepoint.
    pub joining_type: JoiningType,
    /// The joining group of the codepoint.
    pub joining_group: String,
}

/// What a line of `ArabicShaping.txt` denotes: a codepoint, a name, a
/// joining type and a joining group, with semicolons between them.
pub open spec fn arabic_shaping(line: Seq<char>) -> Option<(u32, Seq<char>, JoiningType, Seq<char>)> {
    let t = trimmed(line);
    let c_end = hex_end(t, 0);
    let semi = skip_ws(t, c_end);
    if c_end == 0 || semi >= t.len() || t[semi] != ';' {
        None
    } else {
        match field_at(t, semi + 1) {
            None => None,
            Some((n0, n1)) => if n1 >= t.len() {
                None
            } else {
                match field_at(t, n1 + 1) {
                    None => None,
                    Some((j0, j1)) => if j1 >= t.len() {
                        None
                    } else {
                        match field_at(t, j1 + 1) {
                            None => None,
                            Some((g0, g1)) => if g1 != t.len() {
                                None
                            } else {
                                match (
                                    codepoint_of(t.subrange(0, c_end)),
                                    joining_type_of(t.subrange(j0, j1)),
                                ) {
                                    (Some(cp), Some(ty)) => Some(
                                        (cp, t.subrange(n0, n1), ty, t.subrange(g0, g1)),
                                    ),
                                    _ => None,
                                }
                            },
                        }
                    },
                }
            },
        }
    }
}

impl ArabicShaping {
    /// The codepoints of the row: its one codepoint.
    pub fn codepoints(&self) -> (all: Codepoints)
        ensures
            all == Codepoints::Single(self.codepoint),
    {
        Codepoints::Single(self.codepoint)
    }

    /// Where the file lies in the database.
    pub fn relative_file_path() -> (path: &'static str)
        ensures
            path@ == "ArabicShaping.txt"@,
    {
        "ArabicShaping.txt"
    }

    /// Parses a line of the file.
    pub fn from_str(line: &str) -> (r: Result<ArabicShaping, Error>)
        ensures
            match arabic_shaping(line@) {
                Some((cp, name, ty, group)) => {
                    &&& r is Ok
                    &&& r->Ok_0.codepoint@ == cp
                    &&& r->Ok_0.schematic_name@ == name
                    &&& r->Ok_0.joining_type == ty
                    &&& r->Ok_0.joining_group@ == group
                },
                None => r is Err,
            },
    {
        let (t, offset) = trimmed_chars(line);
        proof {
            lemma_scans_in_range(t@, 0);
        }
        let c_end = find_hex_end(&t, 0);
        let semi = skip_whitespace(&t, c_end);
        if c_end == 0 || semi >= t.len() || t[semi] != ';' {
            return Err(Error::parse("invalid ArabicShaping line"));
        }
        let (n0, n1) = match find_field(&t, semi + 1) {
            Some(field) => field,
            None => {
                return Err(Error::parse("invalid ArabicShaping line"));
            },
        };
        if n1 >= t.len() {
            return Err(Error::parse("invalid ArabicShaping line"));
        }
        let (j0, j1) = match find_field(&t, n1 + 1) {
            Some(field) => field,
            None => {
                return Err(Error::parse("invalid ArabicShaping line"));
            },
        };
        if j1 >= t.len() {
            return Err(Error::parse("invalid ArabicShaping line"));
        }
        let (g0, g1) = match find_field(&t, j1 + 1) {
            Some(field) => field,
            None => {
                return Err(Error::parse("invalid ArabicShaping line"));
            },
        };
        if g1 != t.len() {
            return Err(Error::parse("invalid ArabicShaping line"));
        }
        let cp = match parse_codepoint(&t, 0, c_end) {
            Some(cp) => cp,
            None => {
                return Err(Error::parse("invalid codepoint"));
            },
        };
        let joining_type = match JoiningType::from_chars(&t, j0, j1) {
            Some(ty) => ty,
            None => {
                return Err(
                    Error::parse(
                        "unrecognized joining type (must be one of R, L, D, C, U or T)",
                    ),
                );
            },
        };
        let codepoint = match Codepoint::from_u32(cp) {
            Ok(codepoint) => codepoint,
            Err(e) => {
                return Err(e);
            },
        };
        Ok(
            ArabicShaping {
                codepoint,
                schematic_name: slice_of(line, offset, n0, n1, Ghost(t@)),
                joining_type,
                joining_group: slice_of(line, offset, g0, g1, Ghost(t@)),
            },
        )
    }
}

} // verus!
