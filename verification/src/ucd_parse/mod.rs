//! Lines of the files of the Unicode character database.

pub mod arabic_shaping;
pub mod bidi_mirroring_glyph;
pub mod chars;
pub mod common;
pub mod error;
pub mod extracted;
pub mod rows;

use vstd::prelude::*;

verus! {

/// Where the file of the emoji properties lies in the database: in the
/// directory `emoji` as a rule, beside the other files in old versions.
pub fn emoji_path(standard: bool) -> (path: &'static str)
    ensures
        path@ == if standard {
            "emoji/emoji-data.txt"@
        } else {
            "emoji-data.txt"@
        },
{
    if standard {
        "emoji/emoji-data.txt"
    } else {
        "emoji-data.txt"
    }
}

} // verus!
