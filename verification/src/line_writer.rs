//! A text sink that fills lines up to a width before it starts the next.

use vstd::prelude::*;
use vstd::string::*;
use crate::text::{trim_end, trimmed_end};

verus! {

/// The number of bytes of the UTF-8 encoding of a text.
pub open spec fn byte_len(s: Seq<char>) -> nat {
    vstd::utf8::encode_utf8(s).len()
}

/// What a line writer holds: the text written out, the line that is being
/// filled, the text that starts every line, and the width of a line in
/// bytes.
pub struct LineModel {
    pub out: Seq<char>,
    pub line: Seq<char>,
    pub indent: Seq<char>,
    pub columns: usize,
}

impl LineModel {
    /// The writer after the line that is being filled has been written
    /// out, without the white space at its end and with a line feed.
    pub open spec fn flush_line(self) -> LineModel {
        if self.line.len() == 0 {
            self
        } else {
            LineModel { out: self.out + trimmed_end(self.line) + "\n"@, line: Seq::empty(), ..self }
        }
    }

    /// The writer after `s` has been put on the line: on a new line if the
    /// line would become wider than the width, and behind the indent if
    /// the line is empty.
    pub open spec fn write_str(self, s: Seq<char>) -> LineModel {
        let m = if byte_len(self.line) + byte_len(s) > self.columns {
            self.flush_line()
        } else {
            self
        };
        let start = if m.line.len() == 0 {
            m.indent
        } else {
            m.line
        };
        LineModel { line: start + s, ..m }
    }

    /// The writer after `s` has been written out as it is, behind the line
    /// that was being filled.
    pub open spec fn write(self, s: Seq<char>) -> LineModel {
        LineModel { out: self.flush_line().out + s, ..self.flush_line() }
    }

    /// The writer after each text of `parts` has been put on the line.
    pub open spec fn write_all(self, parts: Seq<Seq<char>>) -> LineModel
        decreases parts.len(),
    {
        if parts.len() == 0 {
            self
        } else {
            self.write_all(parts.drop_last()).write_str(parts.last())
        }
    }
}

/// A writer of text in lines.
pub struct LineWriter {
    out: String,
    line: String,
    columns: usize,
    indent: String,
}

impl LineWriter {
    /// What the writer holds.
    pub closed spec fn view(&self) -> LineModel {
        LineModel { out: self.out@, line: self.line@, indent: self.indent@, columns: self.columns }
    }

    /// A writer that appends to `out`, with lines of 79 bytes that start
    /// with two spaces.
    pub fn new(out: String) -> (w: LineWriter)
        ensures
            w@ == (LineModel { out: out@, line: Seq::empty(), indent: "  "@, columns: 79 }),
    {
        LineWriter {
            out,
            line: String::new(),
            columns: 79,
            indent: String::from_str("  "),
        }
    }

    /// Puts `s` on the line.
    pub fn write_str(&mut self, s: &str)
        ensures
            final(self)@ == old(self)@.write_str(s@),
    {
        let used = self.line.as_str().as_bytes().len();
        let more = s.as_bytes().len();
        if more > self.columns || used > self.columns - more {
            self.flush_line();
        }
        if self.line.as_str().is_empty() {
            self.line.append(self.indent.as_str());
            assert(self.line@ =~= self.indent@);
        }
        self.line.append(s);
    }

    /// Makes every further line start with `s`.
    pub fn indent(&mut self, s: &str)
        ensures
            final(self)@ == (LineModel { indent: s@, ..old(self)@ }),
    {
        self.indent = String::from_str(s);
    }

    /// Writes out the line that is being filled, if it holds anything.
    pub fn flush_line(&mut self)
        ensures
            final(self)@ == old(self)@.flush_line(),
    {
        if self.line.as_str().is_empty() {
            return ;
        }
        self.out.append(trim_end(self.line.as_str()));
        self.out.append("\n");
        self.line = String::new();
    }

    /// Writes out `s` as it is, behind the line that was being filled.
    pub fn write(&mut self, s: &str)
        ensures
            final(self)@ == old(self)@.write(s@),
    {
        self.flush_line();
        self.out.append(s);
    }

    /// Writes out the line that is being filled.
    pub fn flush(&mut self)
        ensures
            final(self)@ == old(self)@.flush_line(),
    {
        self.flush_line();
    }

    /// The text written out so far.
    pub fn output(&self) -> (text: &str)
        ensures
            text@ == self@.out,
    {
        self.out.as_str()
    }

    /// Ends the writing and gives the text written out.
    pub fn into_inner(self) -> (text: String)
        ensures
            text@ == self@.flush_line().out,
    {
        let mut this = self;
        this.flush_line();
        this.out
    }
}

} // verus!
