//! Offline compilation of regular expressions over Unicode text into
//! deterministic finite automata, together with the table-emitting helpers
//! that surround it.

pub mod sparse_set;
pub mod dfa;
pub mod state_set;
pub mod minimize;
pub mod error;
pub mod pattern;
pub mod utf8;
pub mod nfa;
pub mod nfa_lang;
pub mod determinize;
pub mod hangul;
pub mod text;
pub mod line_writer;
pub mod writer;
pub mod ucd_parse;
pub mod dump;
pub mod encode;
pub mod util;
pub mod tables;
pub mod bidi_class;
pub mod bidi_mirroring_glyph;
pub mod jamo_short_name;
pub mod property;
pub mod joining_group;
pub mod canonical_combining_class;
pub mod case_mapping;
pub mod joining_type;
pub mod script;
pub mod thompson;
