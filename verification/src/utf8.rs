//! UTF-8: the bytes of one scalar value, and the byte ranges that cover a
//! range of scalar values.

use vstd::prelude::*;
use vstd::utf8::{encode_scalar, is_scalar};
use utf8_ranges::Utf8Sequences;

verus! {

/// The sequences of byte ranges that `utf8_ranges::Utf8Sequences::new(start,
/// end)` yields, each range as `(first, last)`.
pub uninterp spec fn utf8_sequences(start: char, end: char) -> Seq<Seq<(u8, u8)>>;

/// The view of every sequence of `seqs`.
pub open spec fn sequence_views(seqs: Seq<Vec<(u8, u8)>>) -> Seq<Seq<(u8, u8)>> {
    Seq::new(seqs.len(), |i: int| seqs[i]@)
}

/// Whether `s` has one byte of each range of `ranges`, in order.
pub open spec fn in_sequence(ranges: Seq<(u8, u8)>, s: Seq<u8>) -> bool {
    s.len() == ranges.len() && forall|k: int|
        0 <= k < s.len() ==> ranges[k].0 <= #[trigger] s[k] <= ranges[k].1
}

/// Whether `s` is in one of the sequences of byte ranges.
pub open spec fn in_sequences(seqs: Seq<Seq<(u8, u8)>>, s: Seq<u8>) -> bool {
    exists|i: int| 0 <= i < seqs.len() && in_sequence(#[trigger] seqs[i], s)
}

/// Whether `s` is the UTF-8 encoding of a character from `start` to
/// `end`.
pub open spec fn encodes_in(start: char, end: char, s: Seq<u8>) -> bool {
    exists|c: char| start as u32 <= c as u32 <= end as u32 && s == #[trigger] encode_scalar(c as u32)
}

/// Whether the byte range sequences of the characters from `start` to
/// `end` hold just the encodings of these characters.
pub open spec fn sequences_law(start: char, end: char) -> bool {
    forall|s: Seq<u8>|
        #![trigger in_sequences(utf8_sequences(start, end), s)]
        #![trigger encodes_in(start, end, s)]
        in_sequences(utf8_sequences(start, end), s) <==> encodes_in(start, end, s)
}

/// Collects what `utf8_ranges::Utf8Sequences::new(start, end)` yields: the
/// alternatives, in the iterator's order. Each alternative is a sequence
/// of byte ranges. As the crate documents it, a byte string is the UTF-8
/// encoding of a scalar value of the range if and only if it is wholly
/// in one of the alternatives.
#[verifier::external_body]
pub(crate) fn utf8_sequences_of(start: char, end: char) -> (seqs: Vec<Vec<(u8, u8)>>)
    ensures
        sequence_views(seqs@) == utf8_sequences(start, end),
        forall|s: Seq<u8>|
            #![trigger in_sequences(sequence_views(seqs@), s)]
            #![trigger encodes_in(start, end, s)]
            in_sequences(sequence_views(seqs@), s) <==> encodes_in(start, end, s),
{
    Utf8Sequences::new(start, end).map(
        |seq| seq.as_slice().iter().map(|r| (r.start, r.end)).collect(),
    ).collect()
}

/// The UTF-8 encoding of `c`.
pub fn encode_utf8(c: char) -> (bytes: Vec<u8>)
    ensures
        bytes@ == encode_scalar(c as u32),
        1 <= bytes@.len() <= 4,
{
    let cp: u32 = c as u32;
    let mut bytes: Vec<u8> = Vec::new();
    if cp <= 0x7F {
        assert(cp & 0x7F <= 0x7F) by (bit_vector);
        bytes.push((cp & 0x7F) as u8);
        assert(bytes@ =~= encode_scalar(cp));
    } else if cp <= 0x7FF {
        assert((cp >> 6) & 0x1F <= 0x1F) by (bit_vector);
        assert(cp & 0x3F <= 0x3F) by (bit_vector);
        bytes.push(0xC0 | ((cp >> 6) & 0x1F) as u8);
        bytes.push(0x80 | (cp & 0x3F) as u8);
        assert(bytes@ =~= encode_scalar(cp));
    } else if cp <= 0xFFFF {
        assert((cp >> 12) & 0x0F <= 0x0F) by (bit_vector);
        assert((cp >> 6) & 0x3F <= 0x3F) by (bit_vector);
        assert(cp & 0x3F <= 0x3F) by (bit_vector);
        bytes.push(0xE0 | ((cp >> 12) & 0x0F) as u8);
        bytes.push(0x80 | ((cp >> 6) & 0x3F) as u8);
        bytes.push(0x80 | (cp & 0x3F) as u8);
        assert(bytes@ =~= encode_scalar(cp));
    } else {
        assert((cp >> 18) & 0x7 <= 0x7) by (bit_vector);
        assert((cp >> 12) & 0x3F <= 0x3F) by (bit_vector);
        assert((cp >> 6) & 0x3F <= 0x3F) by (bit_vector);
        assert(cp & 0x3F <= 0x3F) by (bit_vector);
        bytes.push(0xF0 | ((cp >> 18) & 0x7) as u8);
        bytes.push(0x80 | ((cp >> 12) & 0x3F) as u8);
        bytes.push(0x80 | ((cp >> 6) & 0x3F) as u8);
        bytes.push(0x80 | (cp & 0x3F) as u8);
        assert(bytes@ =~= encode_scalar(cp));
    }
    bytes
}

} // verus!
