//! Codepoints, and the scanning of a line.

use vstd::prelude::*;
use vstd::string::*;
use crate::text::is_whitespace;
use crate::ucd_parse::chars::chars_of;
use crate::ucd_parse::error::Error;

verus! {

/// The last codepoint.
pub const MAX_CODEPOINT: u32 = 0x10FFFF;

/// A Unicode codepoint: a number up to `0x10FFFF`. It may be a surrogate.
#[derive(Clone, Copy, Debug, PartialEq, Eq, PartialOrd, Ord, Hash)]
pub struct Codepoint(u32);

/// An inclusive range of codepoints.
#[derive(Clone, Copy, Debug, PartialEq, Eq, PartialOrd, Ord, Hash)]
pub struct CodepointRange {
    pub start: Codepoint,
    pub end: Codepoint,
}

/// A codepoint or a range of codepoints.
#[derive(Clone, Copy, Debug, PartialEq, Eq, PartialOrd, Ord, Hash)]
pub enum Codepoints {
    Single(Codepoint),
    Range(CodepointRange),
}

impl Codepoint {
    /// The number of the codepoint.
    pub closed spec fn view(&self) -> u32 {
        self.0
    }

    /// The number is a codepoint.
    pub closed spec fn wf(&self) -> bool {
        self.0 <= MAX_CODEPOINT
    }

    /// The codepoint `n`, unless `n` is beyond the last codepoint.
    pub fn from_u32(n: u32) -> (r: Result<Codepoint, Error>)
        ensures
            r is Ok <==> n <= MAX_CODEPOINT,
            r is Ok ==> r->Ok_0@ == n && r->Ok_0.wf(),
    {
        if n > MAX_CODEPOINT {
            Err(Error::parse("not a valid Unicode codepoint"))
        } else {
            Ok(Codepoint(n))
        }
    }

    /// The number of the codepoint.
    pub fn value(self) -> (n: u32)
        ensures
            n == self@,
    {
        self.0
    }
}

impl Codepoints {
    /// The first and the last codepoint.
    pub open spec fn bounds(&self) -> (u32, u32) {
        match self {
            Codepoints::Single(cp) => (cp@, cp@),
            Codepoints::Range(range) => (range.start@, range.end@),
        }
    }

    /// The first codepoint.
    pub fn first(&self) -> (n: u32)
        ensures
            n == self.bounds().0,
    {
        match self {
            Codepoints::Single(cp) => cp.value(),
            Codepoints::Range(range) => range.start.value(),
        }
    }

    /// The last codepoint.
    pub fn last(&self) -> (n: u32)
        ensures
            n == self.bounds().1,
    {
        match self {
            Codepoints::Single(cp) => cp.value(),
            Codepoints::Range(range) => range.end.value(),
        }
    }
}

/// The first position from `i` on that holds no white space.
pub open spec fn skip_ws(s: Seq<char>, i: int) -> int
    decreases s.len() - i,
{
    if 0 <= i < s.len() && is_whitespace(s[i]) {
        skip_ws(s, i + 1)
    } else {
        i
    }
}

/// The position behind the last character before `j` that is no white
/// space.
pub open spec fn back_ws(s: Seq<char>, j: int) -> int
    decreases j,
{
    if 0 < j <= s.len() && is_whitespace(s[j - 1]) {
        back_ws(s, j - 1)
    } else {
        j
    }
}

/// The text without the white space at its ends.
pub open spec fn trimmed(s: Seq<char>) -> Seq<char> {
    if skip_ws(s, 0) >= back_ws(s, s.len() as int) {
        Seq::empty()
    } else {
        s.subrange(skip_ws(s, 0), back_ws(s, s.len() as int))
    }
}

/// Whether `c` ends a field of codepoints: white space or a semicolon.
pub open spec fn ends_word(c: char) -> bool {
    is_whitespace(c) || c == ';'
}

/// Whether `c` ends a value: a semicolon or a number sign.
pub open spec fn ends_value(c: char) -> bool {
    c == ';' || c == '#'
}

/// The first position from `i` on that holds a semicolon or white space.
pub open spec fn word_end(s: Seq<char>, i: int) -> int
    decreases s.len() - i,
{
    if 0 <= i < s.len() && !ends_word(s[i]) {
        word_end(s, i + 1)
    } else {
        i
    }
}

/// The first position from `i` on that holds a semicolon or a number
/// sign.
pub open spec fn value_end(s: Seq<char>, i: int) -> int
    decreases s.len() - i,
{
    if 0 <= i < s.len() && !ends_value(s[i]) {
        value_end(s, i + 1)
    } else {
        i
    }
}

/// The first position from `i` on that holds a semicolon.
pub open spec fn field_end(s: Seq<char>, i: int) -> int
    decreases s.len() - i,
{
    if 0 <= i < s.len() && s[i] != ';' {
        field_end(s, i + 1)
    } else {
        i
    }
}

/// The value of a hexadecimal digit.
pub open spec fn hex_digit(c: char) -> Option<nat> {
    if '0' <= c <= '9' {
        Some((c as u32 - '0' as u32) as nat)
    } else if 'a' <= c <= 'f' {
        Some((c as u32 - 'a' as u32 + 10) as nat)
    } else if 'A' <= c <= 'F' {
        Some((c as u32 - 'A' as u32 + 10) as nat)
    } else {
        None
    }
}

/// Whether every character is a hexadecimal digit.
pub open spec fn all_hex(s: Seq<char>) -> bool {
    forall|i: int| 0 <= i < s.len() ==> hex_digit(#[trigger] s[i]) is Some
}

/// The value of a hexadecimal numeral.
pub open spec fn hex_nat(s: Seq<char>) -> nat
    decreases s.len(),
{
    if s.len() == 0 {
        0
    } else {
        16 * hex_nat(s.drop_last()) + match hex_digit(s.last()) {
            Some(d) => d,
            None => 0,
        }
    }
}

/// The codepoint that `s` denotes: hexadecimal digits, behind a plus sign
/// or not, whose value is a codepoint.
pub open spec fn codepoint_of(s: Seq<char>) -> Option<u32> {
    let digits = if s.len() > 0 && s[0] == '+' {
        s.drop_first()
    } else {
        s
    };
    if digits.len() > 0 && all_hex(digits) && hex_nat(digits) <= MAX_CODEPOINT {
        Some(hex_nat(digits) as u32)
    } else {
        None
    }
}

/// Whether `c` is an upper case letter or a digit.
pub open spec fn upper_or_digit(c: char) -> bool {
    'A' <= c <= 'Z' || '0' <= c <= '9'
}

/// The position of the first two full stops in a row, if there are any.
pub open spec fn dots_at(s: Seq<char>, i: int) -> Option<int>
    decreases s.len() - i,
{
    if i < 0 || i + 1 >= s.len() {
        None
    } else if s[i] == '.' && s[i + 1] == '.' {
        Some(i)
    } else {
        dots_at(s, i + 1)
    }
}

/// The range that `s` denotes: two codepoints of upper case letters and
/// digits with two full stops between them.
pub open spec fn range_of(s: Seq<char>) -> Option<(u32, u32)> {
    match dots_at(s, 0) {
        None => None,
        Some(at) => {
            let left = s.subrange(0, at);
            let right = s.subrange(at + 2, s.len() as int);
            if left.len() > 0 && right.len() > 0 && (forall|i: int|
                0 <= i < left.len() ==> upper_or_digit(#[trigger] left[i])) && (forall|i: int|
                0 <= i < right.len() ==> upper_or_digit(#[trigger] right[i])) {
                match (codepoint_of(left), codepoint_of(right)) {
                    (Some(a), Some(b)) => Some((a, b)),
                    _ => None,
                }
            } else {
                None
            }
        },
    }
}

/// The codepoints that `s` denotes: a range if `s` holds two full stops
/// in a row, else one codepoint.
pub open spec fn codepoints_of(s: Seq<char>) -> Option<(u32, u32)> {
    if dots_at(s, 0) is Some {
        range_of(s)
    } else {
        match codepoint_of(s) {
            Some(cp) => Some((cp, cp)),
            None => None,
        }
    }
}

/// A numeral is at least as large as what stands before its last digit.
pub proof fn lemma_hex_grows(s: Seq<char>, i: int)
    requires
        0 <= i <= s.len(),
    ensures
        hex_nat(s.take(i)) <= hex_nat(s),
    decreases s.len() - i,
{
    if i < s.len() {
        lemma_hex_grows(s, i + 1);
        assert(s.take(i + 1).drop_last() =~= s.take(i));
    } else {
        assert(s.take(i) =~= s);
    }
}

/// The first position from `i` on that holds no white space.
pub fn skip_whitespace(s: &Vec<char>, i: usize) -> (j: usize)
    requires
        i <= s@.len(),
    ensures
        j == skip_ws(s@, i as int),
        i <= j <= s@.len(),
    decreases s@.len() - i,
{
    if i < s.len() && is_space(s[i]) {
        skip_whitespace(s, i + 1)
    } else {
        i
    }
}

/// The position behind the last character before `j` that is no white
/// space.
pub fn back_whitespace(s: &Vec<char>, j: usize) -> (i: usize)
    requires
        j <= s@.len(),
    ensures
        i == back_ws(s@, j as int),
        i <= j,
    decreases j,
{
    if j > 0 && is_space(s[j - 1]) {
        back_whitespace(s, j - 1)
    } else {
        j
    }
}

/// Whether `c` is white space.
pub fn is_space(c: char) -> (b: bool)
    ensures
        b == is_whitespace(c),
{
    let v = c as u32;
    (0x09 <= v && v <= 0x0D) || v == 0x20 || v == 0x85 || v == 0xA0 || v == 0x1680 || (0x2000 <= v
        && v <= 0x200A) || v == 0x2028 || v == 0x2029 || v == 0x202F || v == 0x205F || v == 0x3000
}

/// The codepoint that the characters from `from` to `to` denote.
pub fn parse_codepoint(s: &Vec<char>, from: usize, to: usize) -> (r: Option<u32>)
    requires
        from <= to <= s@.len(),
    ensures
        r == codepoint_of(s@.subrange(from as int, to as int)),
{
    let ghost text = s@.subrange(from as int, to as int);
    let start = if from < to && s[from] == '+' {
        from + 1
    } else {
        from
    };
    let ghost digits = s@.subrange(start as int, to as int);
    proof {
        if from < to && text[0] == '+' {
            assert(text.drop_first() =~= digits);
        } else {
            assert(text =~= digits);
        }
    }
    if start == to {
        return None;
    }
    let mut value: u32 = 0;
    let mut i: usize = start;
    assert(digits.take(0) =~= Seq::<char>::empty());
    while i < to
        invariant
            start <= i <= to <= s@.len(),
            digits == s@.subrange(start as int, to as int),
            text == s@.subrange(from as int, to as int),
            digits == if text.len() > 0 && text[0] == '+' {
                text.drop_first()
            } else {
                text
            },
            all_hex(digits.take(i - start)),
            value as nat == hex_nat(digits.take(i - start)),
            value <= MAX_CODEPOINT,
        decreases to - i,
    {
        let c = s[i];
        let d: u32 = if '0' <= c && c <= '9' {
            c as u32 - '0' as u32
        } else if 'a' <= c && c <= 'f' {
            c as u32 - 'a' as u32 + 10
        } else if 'A' <= c && c <= 'F' {
            c as u32 - 'A' as u32 + 10
        } else {
            assert(digits[i - start] == c);
            assert(hex_digit(digits[i - start]) is None);
            return None;
        };
        proof {
            let next = digits.take(i - start + 1);
            assert(next.drop_last() =~= digits.take(i - start));
            assert(next.last() == c);
            assert forall|k: int| 0 <= k < next.len() implies hex_digit(#[trigger] next[k])
                is Some by {
                if k < next.len() - 1 {
                    assert(digits.take(i - start)[k] == next[k]);
                }
            }
            lemma_hex_grows(digits, i - start + 1);
        }
        if value > (MAX_CODEPOINT - d) / 16 {
            proof {
                assert(16 * (value as nat) + d > MAX_CODEPOINT);
                assert(hex_nat(digits.take(i - start + 1)) == 16 * (value as nat) + d);
            }
            return None;
        }
        value = value * 16 + d;
        i += 1;
    }
    assert(digits.take(i - start) =~= digits);
    Some(value)
}

/// Behind a character that is no white space, going back over white space
/// stops.
pub proof fn lemma_back_stops(s: Seq<char>, i: int, j: int)
    requires
        0 <= i < j <= s.len(),
        !is_whitespace(s[i]),
    ensures
        i < back_ws(s, j) <= j,
    decreases j,
{
    if is_whitespace(s[j - 1]) {
        lemma_back_stops(s, i, j - 1);
    }
}

/// Scanning stays inside the text.
pub proof fn lemma_scans_in_range(s: Seq<char>, i: int)
    requires
        0 <= i <= s.len(),
    ensures
        i <= skip_ws(s, i) <= s.len(),
        i <= word_end(s, i) <= s.len(),
        i <= value_end(s, i) <= s.len(),
        i <= field_end(s, i) <= s.len(),
        skip_ws(s, i) < s.len() ==> !is_whitespace(s[skip_ws(s, i)]),
    decreases s.len() - i,
{
    if i < s.len() {
        lemma_scans_in_range(s, i + 1);
    }
}

/// The first position from `i` on that holds a semicolon or white space.
pub fn find_word_end(s: &Vec<char>, i: usize) -> (j: usize)
    requires
        i <= s@.len(),
    ensures
        j == word_end(s@, i as int),
        i <= j <= s@.len(),
    decreases s@.len() - i,
{
    if i < s.len() && !(is_space(s[i]) || s[i] == ';') {
        find_word_end(s, i + 1)
    } else {
        i
    }
}

/// The first position from `i` on that holds a semicolon or a number
/// sign.
pub fn find_value_end(s: &Vec<char>, i: usize) -> (j: usize)
    requires
        i <= s@.len(),
    ensures
        j == value_end(s@, i as int),
        i <= j <= s@.len(),
    decreases s@.len() - i,
{
    if i < s.len() && !(s[i] == ';' || s[i] == '#') {
        find_value_end(s, i + 1)
    } else {
        i
    }
}

/// The first position from `i` on that holds a semicolon.
pub fn find_field_end(s: &Vec<char>, i: usize) -> (j: usize)
    requires
        i <= s@.len(),
    ensures
        j == field_end(s@, i as int),
        i <= j <= s@.len(),
    decreases s@.len() - i,
{
    if i < s.len() && s[i] != ';' {
        find_field_end(s, i + 1)
    } else {
        i
    }
}

/// The position of the first two full stops in a row between `from` and
/// `to`, if there are any.
pub fn find_dots(s: &Vec<char>, from: usize, to: usize) -> (at: Option<usize>)
    requires
        from <= to <= s@.len(),
    ensures
        match dots_at(s@.subrange(from as int, to as int), 0) {
            Some(k) => at == Some((from + k) as usize) && 0 <= k && k + 2 <= to - from,
            None => at is None,
        },
{
    let ghost text = s@.subrange(from as int, to as int);
    let mut i: usize = from;
    while i < to && to - i > 1
        invariant
            from <= i <= to <= s@.len(),
            text == s@.subrange(from as int, to as int),
            dots_at(text, 0) == dots_at(text, i - from),
        decreases to - i,
    {
        assert(text[i - from] == s@[i as int]);
        assert(text[i - from + 1] == s@[i + 1]);
        if s[i] == '.' && s[i + 1] == '.' {
            return Some(i);
        }
        i += 1;
    }
    None
}

/// Whether every character between `from` and `to` is an upper case
/// letter or a digit.
pub fn all_upper_or_digit(s: &Vec<char>, from: usize, to: usize) -> (yes: bool)
    requires
        from <= to <= s@.len(),
    ensures
        yes == (forall|i: int|
            0 <= i < to - from ==> upper_or_digit(#[trigger] s@.subrange(from as int, to as int)[i])),
{
    let ghost text = s@.subrange(from as int, to as int);
    let mut i: usize = from;
    while i < to
        invariant
            from <= i <= to <= s@.len(),
            text == s@.subrange(from as int, to as int),
            forall|k: int| 0 <= k < i - from ==> upper_or_digit(#[trigger] text[k]),
        decreases to - i,
    {
        let c = s[i];
        if !(('A' <= c && c <= 'Z') || ('0' <= c && c <= '9')) {
            assert(!upper_or_digit(text[i - from]));
            return false;
        }
        i += 1;
    }
    true
}

/// The codepoints that the characters from `from` to `to` denote.
pub fn parse_codepoints(s: &Vec<char>, from: usize, to: usize) -> (r: Option<Codepoints>)
    requires
        from <= to <= s@.len(),
    ensures
        match codepoints_of(s@.subrange(from as int, to as int)) {
            Some(bounds) => r is Some && r->Some_0.bounds() == bounds && (r->Some_0 is Range
                <==> dots_at(s@.subrange(from as int, to as int), 0) is Some),
            None => r is None,
        },
{
    let ghost text = s@.subrange(from as int, to as int);
    match find_dots(s, from, to) {
        Some(at) => {
            proof {
                assert(text.subrange(0, at - from) =~= s@.subrange(from as int, at as int));
                assert(text.subrange(at - from + 2, text.len() as int) =~= s@.subrange(
                    at + 2,
                    to as int,
                ));
            }
            if at == from || at + 2 == to {
                return None;
            }
            if !all_upper_or_digit(s, from, at) || !all_upper_or_digit(s, at + 2, to) {
                return None;
            }
            let start = match parse_codepoint(s, from, at) {
                Some(n) => n,
                None => {
                    return None;
                },
            };
            let end = match parse_codepoint(s, at + 2, to) {
                Some(n) => n,
                None => {
                    return None;
                },
            };
            Some(Codepoints::Range(CodepointRange { start: Codepoint(start), end: Codepoint(end) }))
        },
        None => match parse_codepoint(s, from, to) {
            Some(n) => Some(Codepoints::Single(Codepoint(n))),
            None => None,
        },
    }
}

/// What a line that gives codepoints a value denotes: the codepoints in
/// front of the first semicolon, and the value behind it up to a further
/// semicolon, a number sign or the end. White space around either does
/// not count.
pub open spec fn association(line: Seq<char>) -> Option<((u32, u32), bool, Seq<char>)> {
    let t = trimmed(line);
    let cp_end = word_end(t, 0);
    let semi = skip_ws(t, cp_end);
    if cp_end == 0 || semi >= t.len() || t[semi] != ';' {
        None
    } else {
        let p0 = skip_ws(t, semi + 1);
        let p_end = value_end(t, p0);
        if p_end == p0 && p0 == semi + 1 {
            None
        } else {
            match codepoints_of(t.subrange(0, cp_end)) {
                None => None,
                Some(bounds) => Some(
                    (
                        bounds,
                        dots_at(t.subrange(0, cp_end), 0) is Some,
                        if p_end > p0 {
                            t.subrange(p0, back_ws(t, p_end))
                        } else {
                            Seq::empty()
                        },
                    ),
                ),
            }
        }
    }
}

/// Whether a parse gave what the line denotes.
pub open spec fn parsed_as(
    got: Result<(Codepoints, String), Error>,
    want: Option<((u32, u32), bool, Seq<char>)>,
) -> bool {
    match want {
        Some((bounds, is_range, value)) => {
            &&& got is Ok
            &&& got->Ok_0.0.bounds() == bounds
            &&& got->Ok_0.0 is Range <==> is_range
            &&& got->Ok_0.1@ == value
        },
        None => got is Err,
    }
}

/// The characters of `line` without the white space at its ends, and the
/// position in `line` at which they begin.
pub fn trimmed_chars(line: &str) -> (r: (Vec<char>, usize))
    ensures
        r.0@ == trimmed(line@),
        line@.len() <= usize::MAX,
        r.1 + r.0@.len() <= line@.len(),
        r.0@ == line@.subrange(r.1 as int, r.1 + r.0@.len()),
{
    let all = chars_of(line);
    let a = skip_whitespace(&all, 0);
    let b = back_whitespace(&all, all.len());
    let mut t: Vec<char> = Vec::new();
    if a >= b {
        assert(t@ =~= line@.subrange(a as int, a as int));
        return (t, a);
    }
    let mut i: usize = a;
    while i < b
        invariant
            a <= i <= b <= all@.len(),
            t@ == all@.subrange(a as int, i as int),
        decreases b - i,
    {
        t.push(all[i]);
        i += 1;
        assert(t@ =~= all@.subrange(a as int, i as int));
    }
    (t, a)
}

/// Parses a line that gives codepoints a value.
pub fn parse_codepoint_association(line: &str) -> (r: Result<(Codepoints, String), Error>)
    ensures
        parsed_as(r, association(line@)),
{
    let (t, offset) = trimmed_chars(line);
    proof {
        lemma_scans_in_range(t@, 0);
    }
    let cp_end = find_word_end(&t, 0);
    proof {
        lemma_scans_in_range(t@, cp_end as int);
    }
    let semi = skip_whitespace(&t, cp_end);
    if cp_end == 0 || semi >= t.len() || t[semi] != ';' {
        return Err(Error::parse("invalid line"));
    }
    proof {
        lemma_scans_in_range(t@, semi + 1);
    }
    let p0 = skip_whitespace(&t, semi + 1);
    proof {
        lemma_scans_in_range(t@, p0 as int);
    }
    let p_end = find_value_end(&t, p0);
    if p_end == p0 && p0 == semi + 1 {
        return Err(Error::parse("invalid line"));
    }
    let codepoints = match parse_codepoints(&t, 0, cp_end) {
        Some(codepoints) => codepoints,
        None => {
            return Err(Error::parse("invalid codepoints"));
        },
    };
    let value = if p_end > p0 {
        proof {
            lemma_back_stops(t@, p0 as int, p_end as int);
        }
        let stop = back_whitespace(&t, p_end);
        proof {
            assert(line@.subrange(offset + p0, offset + stop) =~= t@.subrange(
                p0 as int,
                stop as int,
            ));
        }
        String::from_str(line.substring_char(offset + p0, offset + stop))
    } else {
        String::new()
    };
    Ok((codepoints, value))
}

/// Whether `c` is a digit or a letter from `A` to `F`.
pub open spec fn upper_hex(c: char) -> bool {
    'A' <= c <= 'F' || '0' <= c <= '9'
}

/// The first position from `i` on that holds no digit and no letter from
/// `A` to `F`.
pub open spec fn hex_end(s: Seq<char>, i: int) -> int
    decreases s.len() - i,
{
    if 0 <= i < s.len() && upper_hex(s[i]) {
        hex_end(s, i + 1)
    } else {
        i
    }
}

/// The field that begins at `from`: what stands between the white space
/// there and the next semicolon or the end. Where nothing stands there,
/// the field is the last character of the white space.
pub open spec fn field_at(s: Seq<char>, from: int) -> Option<(int, int)> {
    let f = skip_ws(s, from);
    let e = field_end(s, f);
    if e > f {
        Some((f, e))
    } else if f > from {
        Some((f - 1, f))
    } else {
        None
    }
}

/// The first position from `i` on that holds no digit and no letter from
/// `A` to `F`.
pub fn find_hex_end(s: &Vec<char>, i: usize) -> (j: usize)
    requires
        i <= s@.len(),
    ensures
        j == hex_end(s@, i as int),
        i <= j <= s@.len(),
    decreases s@.len() - i,
{
    if i < s.len() && (('A' <= s[i] && s[i] <= 'F') || ('0' <= s[i] && s[i] <= '9')) {
        find_hex_end(s, i + 1)
    } else {
        i
    }
}

/// The field that begins at `from`.
pub fn find_field(s: &Vec<char>, from: usize) -> (r: Option<(usize, usize)>)
    requires
        from <= s@.len(),
    ensures
        match field_at(s@, from as int) {
            Some((a, b)) => r == Some((a as usize, b as usize)) && from <= a < b <= s@.len(),
            None => r is None,
        },
{
    let f = skip_whitespace(s, from);
    let e = find_field_end(s, f);
    if e > f {
        Some((f, e))
    } else if f > from {
        Some((f - 1, f))
    } else {
        None
    }
}

/// The text of `line` between the positions `from` and `to` of its
/// trimmed characters, which begin at `offset`.
pub fn slice_of(line: &str, offset: usize, from: usize, to: usize, Ghost(t): Ghost<Seq<char>>) -> (text:
    String)
    requires
        from <= to <= t.len(),
        line@.len() <= usize::MAX,
        offset + t.len() <= line@.len(),
        t == line@.subrange(offset as int, offset + t.len()),
    ensures
        text@ == t.subrange(from as int, to as int),
{
    proof {
        assert(line@.subrange(offset + from, offset + to) =~= t.subrange(from as int, to as int));
    }
    String::from_str(line.substring_char(offset + from, offset + to))
}

} // verus!
