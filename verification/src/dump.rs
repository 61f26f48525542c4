//! A dump of an automaton as text, for debugging and for comparing
//! automata.

use vstd::prelude::*;
use vstd::string::*;
use crate::dfa::{DFA, DFAState, ALPHABET_SIZE, DFA_DEAD};
use crate::text::{decimal, decimal_string};

verus! {

/// The lower case hexadecimal digit `d`.
pub open spec fn hex_lower(d: nat) -> char {
    if d < 10 {
        (('0' as u8) + d) as char
    } else {
        (('a' as u8) + d - 10) as char
    }
}

/// A byte as text: itself if it is a printable ASCII character that needs
/// no escape, else an escape with a backslash.
pub open spec fn escaped(b: u8) -> Seq<char> {
    if b == 0x09 {
        seq!['\\', 't']
    } else if b == 0x0D {
        seq!['\\', 'r']
    } else if b == 0x0A {
        seq!['\\', 'n']
    } else if b == 0x27 {
        seq!['\\', '\'']
    } else if b == 0x22 {
        seq!['\\', '"']
    } else if b == 0x5C {
        seq!['\\', '\\']
    } else if 0x20 <= b <= 0x7E {
        seq![b as char]
    } else {
        seq!['\\', 'x', hex_lower((b / 16) as nat), hex_lower((b % 16) as nat)]
    }
}

/// The byte as the standard library's `ascii::escape_default` gives it:
/// tab, carriage return, line feed, the quotes and the backslash behind a
/// backslash, any other printable ASCII character as it is, and any other
/// byte as `\x` and two lower case hexadecimal digits.
#[verifier::external_body]
fn ascii_escape(b: u8) -> (r: String)
    ensures
        r@ == escaped(b),
{
    std::ascii::escape_default(b).map(|c| c as char).collect()
}

/// The byte in its escaped form.
pub fn escape(b: u8) -> (r: String)
    ensures
        r@ == escaped(b),
{
    ascii_escape(b)
}

/// The two characters that say what a state is: `D` for the dead state or
/// `>` for the state `start`, where a search begins, and `*` for a state
/// that accepts.
pub open spec fn status_text(id: int, start: int, is_match: bool) -> Seq<char> {
    seq![
        if id == 0 {
            'D'
        } else if id == start {
            '>'
        } else {
            ' '
        },
        if is_match {
            '*'
        } else {
            ' '
        },
    ]
}

/// The two characters that say what the state `id` is in an automaton
/// with the start state `start`.
pub fn state_status(id: u32, start: u32, state: &DFAState) -> (r: &'static str)
    ensures
        r@ == status_text(id as int, start as int, state.is_match),
{
    proof {
        reveal_strlit("D*");
        reveal_strlit("D ");
        reveal_strlit(">*");
        reveal_strlit("> ");
        reveal_strlit(" *");
        reveal_strlit("  ");
    }
    let r = if id == 0 {
        if state.is_match {
            "D*"
        } else {
            "D "
        }
    } else if id == start {
        if state.is_match {
            ">*"
        } else {
            "> "
        }
    } else {
        if state.is_match {
            " *"
        } else {
            "  "
        }
    };
    assert(r@ =~= status_text(id as int, start as int, state.is_match));
    r
}

/// One range of transitions as text: the byte or the first and the last
/// byte, an arrow and the state that they lead to.
pub open spec fn range_text(range: (u8, u8, u32)) -> Seq<char> {
    if range.0 == range.1 {
        escaped(range.0) + " => "@ + decimal(range.2 as nat)
    } else {
        escaped(range.0) + "-"@ + escaped(range.1) + " => "@ + decimal(range.2 as nat)
    }
}

/// The first `upto` ranges as text, with `", "` between them. Ranges that
/// lead to the dead state are left out.
pub open spec fn ranges_text(ranges: Seq<(u8, u8, u32)>, upto: int) -> Seq<char>
    decreases upto,
{
    if upto <= 0 {
        Seq::empty()
    } else if ranges[upto - 1].2 == DFA_DEAD {
        ranges_text(ranges, upto - 1)
    } else if ranges_text(ranges, upto - 1).len() == 0 {
        range_text(ranges[upto - 1])
    } else {
        ranges_text(ranges, upto - 1) + ", "@ + range_text(ranges[upto - 1])
    }
}

/// The number `n` as a decimal numeral of at least four digits, with
/// zeros in front.
pub open spec fn padded(n: nat) -> Seq<char> {
    if n < 10 {
        "000"@ + decimal(n)
    } else if n < 100 {
        "00"@ + decimal(n)
    } else if n < 1000 {
        "0"@ + decimal(n)
    } else {
        decimal(n)
    }
}

/// The line of the state `id` in a dump of an automaton with the start
/// state `start`.
pub open spec fn state_line(id: int, start: int, state: DFAState, described: Seq<char>) -> Seq<
    char,
> {
    status_text(id, start, state.is_match) + padded(id as nat) + ": "@ + described + "\n"@
}

impl DFAState {
    /// The transitions of the state as text: its ranges of bytes that
    /// lead to one state, but for those that lead to the dead state.
    pub open spec fn described(&self) -> Seq<char> {
        ranges_text(self.runs(ALPHABET_SIZE as int), self.runs(ALPHABET_SIZE as int).len() as int)
    }

    /// The transitions of the state as text, such as `a-z => 12`.
    pub fn describe(&self) -> (text: String)
        requires
            self.transitions@.len() == ALPHABET_SIZE,
        ensures
            text@ == self.described(),
    {
        let ranges = self.sparse_transitions();
        let mut text = String::new();
        let mut i: usize = 0;
        while i < ranges.len()
            invariant
                i <= ranges@.len(),
                text@ == ranges_text(ranges@, i as int),
            decreases ranges@.len() - i,
        {
            let (start, end, next_id) = ranges[i];
            if next_id != DFA_DEAD {
                let ghost before = text@;
                if !text.as_str().is_empty() {
                    text.append(", ");
                }
                let mut line = escape(start);
                if start != end {
                    line.append("-");
                    line.append(escape(end).as_str());
                }
                line.append(" => ");
                line.append(decimal_string(next_id as u64).as_str());
                text.append(line.as_str());
                proof {
                    assert(line@ =~= range_text(ranges@[i as int]));
                    if before.len() == 0 {
                        assert(text@ =~= range_text(ranges@[i as int]));
                    }
                }
            }
            i += 1;
        }
        text
    }
}

impl DFA {
    /// The dump of the first `upto` states: one line for each state with
    /// what it is, its number and its transitions.
    pub open spec fn dumped(&self, upto: int) -> Seq<char>
        decreases upto,
    {
        if upto <= 0 {
            Seq::empty()
        } else {
            self.dumped(upto - 1) + state_line(
                upto - 1,
                self.start as int,
                self.states@[upto - 1],
                self.states@[upto - 1].described(),
            )
        }
    }

    /// A dump of the automaton: for each state a line that says whether it
    /// is the dead state, the start state or an accepting state, and lists
    /// its transitions in ranges of bytes.
    pub fn dump(&self) -> (text: String)
        requires
            self.wf(),
        ensures
            text@ == self.dumped(self.len()),
    {
        let mut text = String::new();
        let mut i: usize = 0;
        while i < self.states.len()
            invariant
                i <= self.states@.len(),
                self.wf(),
                text@ == self.dumped(i as int),
            decreases self.states@.len() - i,
        {
            let ghost before = text@;
            let id = i as u32;
            let described = self.states[i].describe();
            text.append(state_status(id, self.start, &self.states[i]));
            if i < 10 {
                text.append("000");
            } else if i < 100 {
                text.append("00");
            } else if i < 1000 {
                text.append("0");
            }
            text.append(decimal_string(i as u64).as_str());
            text.append(": ");
            text.append(described.as_str());
            text.append("\n");
            proof {
                assert(text@ =~= before + state_line(
                    i as int,
                    self.start as int,
                    self.states@[i as int],
                    described@,
                ));
            }
            i += 1;
        }
        text
    }
}

} // verus!
