//! Rows of `BidiMirroring.txt`.

use vstd::prelude::*;
use crate::ucd_parse::common::{
    codepoint_of,
    find_hex_end,
    hex_end,
    lemma_scans_in_range,
    parse_codepoint,
    skip_whitespace,
    skip_ws,
    trimmed,
    trimmed_chars,
    Codepoint,
    Codepoints,
};
use crate::ucd_parse::error::Error;

verus! {

/// A row of `BidiMirroring.txt`.
#[derive(Debug, PartialEq, Eq)]
pub struct BidiMirroring {
    /// The codepoint of the row.
    pub codepoint: Codepoint,
    /// The codepoint whose glyph is as a rule the mirror image of the
    /// glyph of `codepoint`.
    pub bidi_mirroring_glyph: Codepoint,
}

/// Whether no character from `from` on is a line feed.
pub open spec fn no_line_feed(s: Seq<char>, from: int) -> bool {
    forall|i: int| from <= i < s.len() ==> #[trigger] s[i] != '\n'
}

/// What a line of `BidiMirroring.txt` denotes: a codepoint, a semicolon,
/// the mirroring codepoint, white space and a comment that is not empty.
pub open spec fn bidi_mirroring(line: Seq<char>) -> Option<(u32, u32)> {
    let t = trimmed(line);
    let c_end = hex_end(t, 0);
    let semi = skip_ws(t, c_end);
    if c_end == 0 || semi >= t.len() || t[semi] != ';' {
        None
    } else {
        let s0 = skip_ws(t, semi + 1);
        let s1 = hex_end(t, s0);
        let hash = skip_ws(t, s1);
        if s1 == s0 || hash == s1 || hash >= t.len() || t[hash] != '#' || hash + 1 >= t.len()
            || !no_line_feed(t, hash + 1) {
            None
        } else {
            match (codepoint_of(t.subrange(0, c_end)), codepoint_of(t.subrange(s0, s1))) {
                (Some(a), Some(b)) => Some((a, b)),
                _ => None,
            }
        }
    }
}

/// Whether no character from `from` on is a line feed.
pub fn free_of_line_feeds(s: &Vec<char>, from: usize) -> (yes: bool)
    requires
        from <= s@.len(),
    ensures
        yes == no_line_feed(s@, from as int),
{
    let mut i: usize = from;
    while i < s.len()
        invariant
            from <= i <= s@.len(),
            forall|k: int| from <= k < i ==> #[trigger] s@[k] != '\n',
        decreases s@.len() - i,
    {
        if s[i] == '\n' {
            return false;
        }
        i += 1;
    }
    true
}

impl BidiMirroring {
    /// The codepoints of the row: its one codepoint.
    pub fn codepoints(&self) -> (all: Codepoints)
        ensures
            all == Codepoints::Single(self.codepoint),
    {
        Codepoints::Single(self.codepoint)
    }

    /// Where the file lies in the database.
    pub fn relative_file_path() -> (path: &'static str)
        ensures
            path@ == "BidiMirroring.txt"@,
    {
        "BidiMirroring.txt"
    }

    /// Parses a line of the file.
    pub fn from_str(line: &str) -> (r: Result<BidiMirroring, Error>)
        ensures
            match bidi_mirroring(line@) {
                Some((a, b)) => r is Ok && r->Ok_0.codepoint@ == a && r->Ok_0.bidi_mirroring_glyph@
                    == b,
                None => r is Err,
            },
    {
        let (t, offset) = trimmed_chars(line);
        proof {
            lemma_scans_in_range(t@, 0);
        }
        let c_end = find_hex_end(&t, 0);
        let semi = skip_whitespace(&t, c_end);
        if c_end == 0 || semi >= t.len() || t[semi] != ';' {
            return Err(Error::parse("invalid BidiMirroring line"));
        }
        let s0 = skip_whitespace(&t, semi + 1);
        let s1 = find_hex_end(&t, s0);
        let hash = skip_whitespace(&t, s1);
        if s1 == s0 || hash == s1 || hash >= t.len() || t[hash] != '#' || hash + 1 >= t.len() {
            return Err(Error::parse("invalid BidiMirroring line"));
        }
        if !free_of_line_feeds(&t, hash + 1) {
            return Err(Error::parse("invalid BidiMirroring line"));
        }
        let a = match parse_codepoint(&t, 0, c_end) {
            Some(a) => a,
            None => {
                return Err(Error::parse("invalid codepoint"));
            },
        };
        let b = match parse_codepoint(&t, s0, s1) {
            Some(b) => b,
            None => {
                return Err(Error::parse("invalid codepoint"));
            },
        };
        let codepoint = match Codepoint::from_u32(a) {
            Ok(codepoint) => codepoint,
            Err(e) => {
                return Err(e);
            },
        };
        let bidi_mirroring_glyph = match Codepoint::from_u32(b) {
            Ok(codepoint) => codepoint,
            Err(e) => {
                return Err(e);
            },
        };
        Ok(BidiMirroring { codepoint, bidi_mirroring_glyph })
    }
}

} // verus!
