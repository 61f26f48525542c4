//! The syntax tree of a regular expression, as the automaton compiler reads
//! it.

use vstd::prelude::*;

verus! {

/// A single character or byte.
pub enum Literal {
    Unicode(char),
    Byte(u8),
}

/// An inclusive range of Unicode scalar values.
pub struct ClassUnicodeRange {
    pub start: char,
    pub end: char,
}

/// An inclusive range of bytes.
pub struct ClassBytesRange {
    pub start: u8,
    pub end: u8,
}

/// A set of characters or of bytes, given by its ranges.
pub enum Class {
    Unicode(Vec<ClassUnicodeRange>),
    Bytes(Vec<ClassBytesRange>),
}

/// How often a counted repetition repeats.
pub enum RepetitionRange {
    Exactly(u32),
    AtLeast(u32),
    Bounded(u32, u32),
}

/// The kind of a repetition.
pub enum RepetitionKind {
    ZeroOrOne,
    ZeroOrMore,
    OneOrMore,
    Range(RepetitionRange),
}

/// A repetition of a sub-expression. A greedy repetition prefers to repeat.
pub struct Repetition {
    pub kind: RepetitionKind,
    pub greedy: bool,
    pub hir: Box<Hir>,
}

/// A regular expression.
pub enum Hir {
    /// Matches the empty input.
    Empty,
    Literal(Literal),
    Class(Class),
    /// A line or text anchor.
    Anchor,
    /// A word boundary assertion.
    WordBoundary,
    Repetition(Repetition),
    Group(Box<Hir>),
    Concat(Vec<Hir>),
    Alternation(Vec<Hir>),
}

} // verus!
