//! Names and decompositions of precomposed Hangul syllables.

use vstd::prelude::*;
use vstd::string::*;

verus! {

/// The first precomposed Hangul syllable.
pub const S_BASE: u32 = 0xAC00;

/// The last precomposed Hangul syllable.
pub const S_LAST: u32 = 0xD7A3;

/// The first leading consonant.
pub const L_BASE: u32 = 0x1100;

/// The first vowel.
pub const V_BASE: u32 = 0x1161;

/// The codepoint before the first trailing consonant.
pub const T_BASE: u32 = 0x11A7;

/// The number of trailing consonants, counting the absent one.
pub const T_COUNT: u32 = 28;

/// The number of syllables with one leading consonant.
pub const N_COUNT: u32 = 588;

/// The leading consonant, the vowel and, if there is one, the trailing
/// consonant of the precomposed Hangul syllable `cp`; nothing for any other
/// codepoint.
pub open spec fn decomposition(cp: u32) -> Option<(u32, u32, Option<u32>)> {
    if S_BASE <= cp <= S_LAST {
        let s = cp - S_BASE;
        Some(
            (
                (L_BASE + s / (N_COUNT as int)) as u32,
                (V_BASE + (s % (N_COUNT as int)) / (T_COUNT as int)) as u32,
                if s % (T_COUNT as int) == 0 {
                    None
                } else {
                    Some((T_BASE + s % (T_COUNT as int)) as u32)
                },
            ),
        )
    } else {
        None
    }
}

/// The table is in strictly increasing order of its codepoints.
pub open spec fn sorted_by_codepoint(table: Seq<(u32, &str)>) -> bool {
    forall|i: int, j: int| 0 <= i < j < table.len() ==> table[i].0 < table[j].0
}

/// The table has an entry for `cp`.
pub open spec fn has_entry(table: Seq<(u32, &str)>, cp: u32) -> bool {
    exists|i: int| 0 <= i < table.len() && (#[trigger] table[i]).0 == cp
}

/// The short name that the table gives for `cp`.
pub open spec fn short_name(table: Seq<(u32, &str)>, cp: u32) -> Seq<char> {
    let i = choose|i: int| 0 <= i < table.len() && (#[trigger] table[i]).0 == cp;
    table[i].1@
}

/// Whether the table has an entry for every part of the decomposition of
/// `cp`.
pub open spec fn names_parts(table: Seq<(u32, &str)>, cp: u32) -> bool {
    match decomposition(cp) {
        None => true,
        Some((l, v, t)) => has_entry(table, l) && has_entry(table, v) && match t {
            None => true,
            Some(t) => has_entry(table, t),
        },
    }
}

/// The name of the precomposed Hangul syllable `cp`: the words `HANGUL
/// SYLLABLE` and the short names of its parts.
pub open spec fn syllable_name(table: Seq<(u32, &str)>, cp: u32) -> Option<Seq<char>> {
    match decomposition(cp) {
        None => None,
        Some((l, v, t)) => Some(
            "HANGUL SYLLABLE "@ + short_name(table, l) + short_name(table, v) + match t {
                None => Seq::<char>::empty(),
                Some(t) => short_name(table, t),
            },
        ),
    }
}

/// The character name of the precomposed Hangul syllable `cp`, or nothing
/// if `cp` is no such syllable. For a syllable, the table is in the order
/// of the codepoints and gives the short name of each of its parts.
pub fn hangul_name<'a>(table: &'a [(u32, &'a str)], cp: u32) -> (name: Option<String>)
    requires
        decomposition(cp) is Some ==> sorted_by_codepoint(table@) && names_parts(table@, cp),
    ensures
        match syllable_name(table@, cp) {
            None => name is None,
            Some(text) => name is Some && name->Some_0@ == text,
        },
{
    let mut name = String::from_str("HANGUL SYLLABLE ");
    let (lpart, vpart, tpart) = match hangul_full_canonical_decomposition(cp) {
        None => {
            return None;
        },
        Some(triple) => triple,
    };
    name.append(jamo_short_name(table, lpart));
    name.append(jamo_short_name(table, vpart));
    match tpart {
        None => {
            name.append("");
            proof {
                reveal_strlit("");
                assert(name@ =~= "HANGUL SYLLABLE "@ + short_name(table@, lpart) + short_name(
                    table@,
                    vpart,
                ) + Seq::<char>::empty());
            }
        },
        Some(t) => {
            name.append(jamo_short_name(table, t));
        },
    }
    Some(name)
}

/// The full canonical decomposition of the precomposed Hangul syllable
/// `cp`, or nothing if `cp` is no such syllable.
pub fn hangul_full_canonical_decomposition(cp: u32) -> (parts: Option<(u32, u32, Option<u32>)>)
    ensures
        parts == decomposition(cp),
        parts is Some <==> 0xAC00 <= cp <= 0xD7A3,
{
    if !(0xAC00 <= cp && cp <= 0xD7A3) {
        return None;
    }
    let s_index = cp - S_BASE;
    let l_index = s_index / N_COUNT;
    let v_index = (s_index % N_COUNT) / T_COUNT;
    let t_index = s_index % T_COUNT;
    let l_part = L_BASE + l_index;
    let v_part = V_BASE + v_index;
    let t_part = if t_index == 0 {
        None
    } else {
        Some(T_BASE + t_index)
    };
    Some((l_part, v_part, t_part))
}

/// The short name that the table gives for `cp`, found by binary search.
pub fn jamo_short_name<'a>(table: &'a [(u32, &'a str)], cp: u32) -> (name: &'a str)
    requires
        sorted_by_codepoint(table@),
        has_entry(table@, cp),
    ensures
        name@ == short_name(table@, cp),
{
    let ghost at = choose|i: int| 0 <= i < table@.len() && (#[trigger] table@[i]).0 == cp;
    let mut lo: usize = 0;
    let mut hi: usize = table.len();
    while lo + 1 < hi
        invariant
            0 <= lo <= at < hi <= table@.len(),
            sorted_by_codepoint(table@),
            table@[at].0 == cp,
        decreases hi - lo,
    {
        let mid = lo + (hi - lo) / 2;
        if table[mid].0 <= cp {
            lo = mid;
        } else {
            hi = mid;
        }
    }
    assert(lo == at);
    proof {
        let chosen = choose|i: int| 0 <= i < table@.len() && (#[trigger] table@[i]).0 == cp;
        if chosen != at {
            assert(table@[chosen].0 == table@[at].0);
        }
    }
    table[lo].1
}

} // verus!
