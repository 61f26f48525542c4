//! Thompson construction: from a regular expression to a nondeterministic
//! automaton with empty transitions.
//!
//! The automaton is one growing table of states. A fragment of it has an
//! entry state and an exit state whose successor is still open; patching
//! the exit closes it. Every rule of the construction is stated below as a
//! function on tables, and the compiler is proved to build the table that
//! the rules give.

use vstd::prelude::*;
use vstd::utf8::encode_scalar;
use crate::error::Error;
use crate::thompson::{lemma_faults, lemma_large_compile, lemma_recognizes, recognizes};
use crate::pattern::{
    Class,
    ClassBytesRange,
    ClassUnicodeRange,
    Hir,
    Literal,
    Repetition,
    RepetitionKind,
    RepetitionRange,
};
use crate::utf8::{
    encode_utf8,
    sequence_views,
    sequences_law,
    utf8_sequences,
    utf8_sequences_of,
};

verus! {

/// The largest number of states that a table may hold.
pub const NFA_MAX_STATES: usize = 0xFFFF_FFFF;

/// One state of the automaton.
pub enum NFAState {
    /// Leads on to `next` without reading.
    Empty { next: u32 },
    /// Reads one byte from `start` to `end` and leads on to `next`.
    Range { start: u8, end: u8, next: u32 },
    /// Leads on to each alternate without reading, the first preferred. A
    /// reversed union takes each new alternate in front of the others.
    Union { alternates: Vec<u32>, reverse: bool },
    /// Accepts.
    Match,
}

/// What a state is, as a mathematical value.
pub enum StateModel {
    Empty { next: u32 },
    Range { start: u8, end: u8, next: u32 },
    Union { alternates: Seq<u32>, reverse: bool },
    Match,
}

/// A fragment of the automaton: its entry and its exit.
#[derive(Debug)]
pub struct ThompsonRef {
    pub start: u32,
    pub end: u32,
}

/// Why an expression cannot be compiled.
pub enum Fault {
    /// It holds an anchor.
    Anchor,
    /// It holds a word boundary assertion.
    WordBoundary,
    /// Its automaton would have more than `NFA_MAX_STATES` states.
    TooLarge,
}

/// The table and fragment that a rule yields, or the reason why it yields
/// none.
pub type Built = Result<(Seq<StateModel>, ThompsonRef), Fault>;

/// The message of the error that reports `fault`.
pub open spec fn fault_message(fault: Fault) -> Seq<char> {
    match fault {
        Fault::Anchor => "anchors are not supported"@,
        Fault::WordBoundary => "word boundaries are not supported"@,
        Fault::TooLarge => "too many states"@,
    }
}

/// Every successor named in `t` is a state of `t`.
pub open spec fn table_wf(t: Seq<StateModel>) -> bool {
    forall|i: int|
        0 <= i < t.len() ==> match #[trigger] t[i] {
            StateModel::Empty { next } => (next as int) < t.len(),
            StateModel::Range { next, .. } => (next as int) < t.len(),
            StateModel::Union { alternates, .. } => forall|k: int|
                0 <= k < alternates.len() ==> (#[trigger] alternates[k] as int) < t.len(),
            StateModel::Match => true,
        }
}

/// The state `s` with the successor `to`: an empty or a range state leads
/// there, a union takes it as a further alternate, a match state stays as
/// it is.
pub open spec fn patched(s: StateModel, to: u32) -> StateModel {
    match s {
        StateModel::Empty { .. } => StateModel::Empty { next: to },
        StateModel::Range { start, end, .. } => StateModel::Range { start, end, next: to },
        StateModel::Union { alternates, reverse } => if reverse {
            StateModel::Union { alternates: seq![to] + alternates, reverse }
        } else {
            StateModel::Union { alternates: alternates.push(to), reverse }
        },
        StateModel::Match => StateModel::Match,
    }
}

/// The table `t` with the state `from` patched to `to`.
pub open spec fn spec_patch(t: Seq<StateModel>, from: u32, to: u32) -> Seq<StateModel> {
    if (from as int) < t.len() {
        t.update(from as int, patched(t[from as int], to))
    } else {
        t
    }
}

/// The table `t` with every state of `ends` patched to `to`, in order.
pub open spec fn spec_patch_all(t: Seq<StateModel>, ends: Seq<u32>, to: u32) -> Seq<StateModel>
    decreases ends.len(),
{
    if ends.len() == 0 {
        t
    } else {
        spec_patch(spec_patch_all(t, ends.drop_last(), to), ends.last(), to)
    }
}

/// The table `t` with the new state `s`, which is a fragment of its own.
pub open spec fn spec_add(t: Seq<StateModel>, s: StateModel) -> Built {
    if t.len() >= NFA_MAX_STATES {
        Err(Fault::TooLarge)
    } else {
        Ok((t.push(s), ThompsonRef { start: t.len() as u32, end: t.len() as u32 }))
    }
}

/// A new union state; a greedy repetition takes new alternates behind the
/// others, a lazy one in front.
pub open spec fn spec_union(t: Seq<StateModel>, greedy: bool) -> Built {
    spec_add(t, StateModel::Union { alternates: Seq::empty(), reverse: !greedy })
}

/// A new state that reads one byte of `range`.
pub open spec fn spec_range(t: Seq<StateModel>, range: (u8, u8)) -> Built {
    spec_add(t, StateModel::Range { start: range.0, end: range.1, next: 0 })
}

/// A new state that reads nothing.
pub open spec fn spec_empty(t: Seq<StateModel>) -> Built {
    spec_add(t, StateModel::Empty { next: 0 })
}

/// One state for each range from `i` on, each patched behind the fragment
/// from `start` to `end`.
pub open spec fn spec_sequence_rest(
    t: Seq<StateModel>,
    ranges: Seq<(u8, u8)>,
    i: int,
    start: u32,
    end: u32,
) -> Built
    decreases ranges.len() - i,
{
    if i < 0 || i >= ranges.len() {
        Ok((t, ThompsonRef { start, end }))
    } else {
        match spec_range(t, ranges[i]) {
            Err(fault) => Err(fault),
            Ok((t1, r)) => spec_sequence_rest(
                spec_patch(t1, end, r.start),
                ranges,
                i + 1,
                start,
                r.end,
            ),
        }
    }
}

/// The fragment that reads one byte of each range in turn; with no range,
/// the one that reads nothing.
pub open spec fn spec_sequence(t: Seq<StateModel>, ranges: Seq<(u8, u8)>) -> Built {
    if ranges.len() == 0 {
        spec_empty(t)
    } else {
        match spec_range(t, ranges[0]) {
            Err(fault) => Err(fault),
            Ok((t1, r)) => spec_sequence_rest(t1, ranges, 1, r.start, r.end),
        }
    }
}

/// The end of an alternation: one new empty state that every branch exit
/// leads to. The fragment runs from `union` to that state.
pub open spec fn spec_join(t: Seq<StateModel>, union: u32, ends: Seq<u32>) -> Built {
    match spec_empty(t) {
        Err(fault) => Err(fault),
        Ok((t1, e)) => Ok((spec_patch_all(t1, ends, e.start), ThompsonRef { start: union, end: e.start })),
    }
}

/// The branches from `i` on of an alternation of byte range sequences.
pub open spec fn spec_sequences_rest(
    t: Seq<StateModel>,
    seqs: Seq<Seq<(u8, u8)>>,
    i: int,
    union: u32,
    ends: Seq<u32>,
) -> Built
    decreases seqs.len() - i,
{
    if i < 0 || i >= seqs.len() {
        spec_join(t, union, ends)
    } else {
        match spec_sequence(t, seqs[i]) {
            Err(fault) => Err(fault),
            Ok((t1, r)) => spec_sequences_rest(
                spec_patch(t1, union, r.start),
                seqs,
                i + 1,
                union,
                ends.push(r.end),
            ),
        }
    }
}

/// The fragment that reads what one of the byte range sequences reads.
pub open spec fn spec_sequences(t: Seq<StateModel>, seqs: Seq<Seq<(u8, u8)>>) -> Built {
    match spec_union(t, true) {
        Err(fault) => Err(fault),
        Ok((t1, u)) => spec_sequences_rest(t1, seqs, 0, u.start, Seq::empty()),
    }
}

/// Each range of a byte class as a sequence of one byte range.
pub open spec fn byte_class_sequences(ranges: Seq<ClassBytesRange>) -> Seq<Seq<(u8, u8)>> {
    Seq::new(ranges.len(), |i: int| seq![(ranges[i].start, ranges[i].end)])
}

/// The byte range sequences of every range of a character class, in order.
pub open spec fn class_sequences(ranges: Seq<ClassUnicodeRange>) -> Seq<Seq<(u8, u8)>>
    decreases ranges.len(),
{
    if ranges.len() == 0 {
        Seq::empty()
    } else {
        class_sequences(ranges.drop_last()) + utf8_sequences(ranges.last().start, ranges.last().end)
    }
}

/// The bytes of a character's encoding, each as a range of one byte.
pub open spec fn literal_ranges(c: char) -> Seq<(u8, u8)> {
    Seq::new(encode_scalar(c as u32).len(), |i: int| (encode_scalar(c as u32)[i], encode_scalar(c as u32)[i]))
}

/// The first anchor or word boundary of `e`, in the order in which `e` is
/// written, if `e` holds one anywhere: also under a repetition of no
/// times.
pub open spec fn first_fault(e: Hir) -> Option<Fault>
    decreases e, 0nat,
{
    match e {
        Hir::Anchor => Some(Fault::Anchor),
        Hir::WordBoundary => Some(Fault::WordBoundary),
        Hir::Repetition(rep) => first_fault(*rep.hir),
        Hir::Group(inner) => first_fault(*inner),
        Hir::Concat(exprs) => first_fault_from(exprs@, 0),
        Hir::Alternation(exprs) => first_fault_from(exprs@, 0),
        _ => None,
    }
}

/// The first anchor or word boundary of the expressions from `i` on.
pub open spec fn first_fault_from(exprs: Seq<Hir>, i: int) -> Option<Fault>
    decreases exprs, exprs.len() - i,
{
    if i < 0 || i >= exprs.len() {
        None
    } else {
        match first_fault(exprs[i]) {
            Some(fault) => Some(fault),
            None => first_fault_from(exprs, i + 1),
        }
    }
}

/// Whether the rules compile the expression under a repetition of this
/// kind at least once.
pub open spec fn repeats(kind: RepetitionKind) -> bool {
    match kind {
        RepetitionKind::Range(RepetitionRange::Exactly(n)) => n > 0,
        RepetitionKind::Range(RepetitionRange::Bounded(min, max)) => min > 0 || max > min,
        _ => true,
    }
}

/// Whether the byte range sequences of each of the ranges hold just the
/// encodings of its characters.
pub open spec fn class_law(ranges: Seq<ClassUnicodeRange>) -> bool {
    forall|i: int|
        0 <= i < ranges.len() ==> sequences_law((#[trigger] ranges[i]).start, ranges[i].end)
}

/// Whether `class_law` holds of every class of characters of `e` that the
/// rules compile.
pub open spec fn class_laws(e: Hir) -> bool
    decreases e,
{
    match e {
        Hir::Class(Class::Unicode(ranges)) => class_law(ranges@),
        Hir::Repetition(rep) => repeats(rep.kind) ==> class_laws(*rep.hir),
        Hir::Group(inner) => class_laws(*inner),
        Hir::Concat(exprs) => forall|i: int|
            0 <= i < exprs@.len() ==> class_laws(#[trigger] exprs@[i]),
        Hir::Alternation(exprs) => forall|i: int|
            0 <= i < exprs@.len() ==> class_laws(#[trigger] exprs@[i]),
        _ => true,
    }
}

/// The fragment for `e`, built on the table `t`. There is none if `e`
/// holds an anchor or a word boundary anywhere.
pub open spec fn spec_compile(t: Seq<StateModel>, e: Hir) -> Built
    decreases e, 0nat, 0nat,
{
    match first_fault(e) {
        Some(fault) => Err(fault),
        None => match e {
            Hir::Empty => spec_empty(t),
            Hir::Literal(Literal::Unicode(c)) => spec_sequence(t, literal_ranges(c)),
            Hir::Literal(Literal::Byte(b)) => spec_range(t, (b, b)),
            Hir::Class(Class::Bytes(ranges)) => spec_sequences(t, byte_class_sequences(ranges@)),
            Hir::Class(Class::Unicode(ranges)) => spec_sequences(t, class_sequences(ranges@)),
            Hir::Repetition(rep) => spec_repetition(t, rep),
            Hir::Group(inner) => spec_compile(t, *inner),
            Hir::Concat(exprs) => spec_concat(t, exprs@),
            Hir::Alternation(exprs) => spec_alternation(t, exprs@),
            Hir::Anchor => Err(Fault::Anchor),
            Hir::WordBoundary => Err(Fault::WordBoundary),
        },
    }
}

/// The fragment for a repetition, by its kind.
pub open spec fn spec_repetition(t: Seq<StateModel>, rep: Repetition) -> Built
    decreases rep, 0nat, 0nat,
{
    match rep.kind {
        RepetitionKind::ZeroOrOne => spec_zero_or_one(t, *rep.hir, rep.greedy),
        RepetitionKind::ZeroOrMore => spec_at_least(t, *rep.hir, rep.greedy, 0),
        RepetitionKind::OneOrMore => spec_at_least(t, *rep.hir, rep.greedy, 1),
        RepetitionKind::Range(RepetitionRange::Exactly(n)) => spec_exactly(t, *rep.hir, n as nat),
        RepetitionKind::Range(RepetitionRange::AtLeast(n)) => spec_at_least(
            t,
            *rep.hir,
            rep.greedy,
            n as nat,
        ),
        RepetitionKind::Range(RepetitionRange::Bounded(min, max)) => spec_bounded(
            t,
            *rep.hir,
            rep.greedy,
            min as nat,
            max as nat,
        ),
    }
}

/// The fragments for the expressions from `i` on, each patched behind the
/// fragment from `start` to `end`.
pub open spec fn spec_concat_rest(
    t: Seq<StateModel>,
    exprs: Seq<Hir>,
    i: int,
    start: u32,
    end: u32,
) -> Built
    decreases exprs, exprs.len() - i, 0nat,
{
    if i < 0 || i >= exprs.len() {
        Ok((t, ThompsonRef { start, end }))
    } else {
        match spec_compile(t, exprs[i]) {
            Err(fault) => Err(fault),
            Ok((t1, r)) => spec_concat_rest(spec_patch(t1, end, r.start), exprs, i + 1, start, r.end),
        }
    }
}

/// The fragment that reads what the expressions read one after the other;
/// with no expression, the one that reads nothing.
pub open spec fn spec_concat(t: Seq<StateModel>, exprs: Seq<Hir>) -> Built
    decreases exprs, exprs.len() + 1, 0nat,
{
    if exprs.len() == 0 {
        spec_empty(t)
    } else {
        match spec_compile(t, exprs[0]) {
            Err(fault) => Err(fault),
            Ok((t1, r)) => spec_concat_rest(t1, exprs, 1, r.start, r.end),
        }
    }
}

/// The branches from `i` on of an alternation: each is compiled, the union
/// takes its entry as a further alternate, and its exit is kept for the
/// join.
pub open spec fn spec_alternation_rest(
    t: Seq<StateModel>,
    exprs: Seq<Hir>,
    i: int,
    union: u32,
    ends: Seq<u32>,
) -> Built
    decreases exprs, exprs.len() - i, 0nat,
{
    if i < 0 || i >= exprs.len() {
        spec_join(t, union, ends)
    } else {
        match spec_compile(t, exprs[i]) {
            Err(fault) => Err(fault),
            Ok((t1, r)) => spec_alternation_rest(
                spec_patch(t1, union, r.start),
                exprs,
                i + 1,
                union,
                ends.push(r.end),
            ),
        }
    }
}

/// The fragment that reads what one of the expressions reads. The union's
/// alternates stand in the order of the expressions.
pub open spec fn spec_alternation(t: Seq<StateModel>, exprs: Seq<Hir>) -> Built
    decreases exprs, exprs.len() + 1, 0nat,
{
    match spec_union(t, true) {
        Err(fault) => Err(fault),
        Ok((t1, u)) => spec_alternation_rest(t1, exprs, 0, u.start, Seq::empty()),
    }
}

/// `left` further copies of `e`, each patched behind the fragment from
/// `start` to `end`.
pub open spec fn spec_copies_rest(
    t: Seq<StateModel>,
    e: Hir,
    left: nat,
    start: u32,
    end: u32,
) -> Built
    decreases e, 1nat, left,
{
    if left == 0 {
        Ok((t, ThompsonRef { start, end }))
    } else {
        match spec_compile(t, e) {
            Err(fault) => Err(fault),
            Ok((t1, r)) => spec_copies_rest(
                spec_patch(t1, end, r.start),
                e,
                (left - 1) as nat,
                start,
                r.end,
            ),
        }
    }
}

/// The fragment that reads `e` exactly `n` times: `n` copies of the
/// fragment of `e` in a row; for `n == 0`, the one that reads nothing,
/// unless `e` holds an anchor or a word boundary.
pub open spec fn spec_exactly(t: Seq<StateModel>, e: Hir, n: nat) -> Built
    decreases e, 2nat, n,
{
    if n == 0 {
        match first_fault(e) {
            Some(fault) => Err(fault),
            None => spec_empty(t),
        }
    } else {
        match spec_compile(t, e) {
            Err(fault) => Err(fault),
            Ok((t1, r)) => spec_copies_rest(t1, e, (n - 1) as nat, r.start, r.end),
        }
    }
}

/// The fragment that reads `e` or nothing: a union that leads into `e` and
/// past it to a new empty state, which is the exit.
pub open spec fn spec_zero_or_one(t: Seq<StateModel>, e: Hir, greedy: bool) -> Built
    decreases e, 1nat, 0nat,
{
    match spec_union(t, greedy) {
        Err(fault) => Err(fault),
        Ok((t1, u)) => match spec_compile(t1, e) {
            Err(fault) => Err(fault),
            Ok((t2, r)) => match spec_empty(t2) {
                Err(fault) => Err(fault),
                Ok((t3, x)) => Ok(
                    (
                        spec_patch(
                            spec_patch(spec_patch(t3, u.start, r.start), u.start, x.start),
                            r.end,
                            x.start,
                        ),
                        ThompsonRef { start: u.start, end: x.start },
                    ),
                ),
            },
        },
    }
}

/// `left` further optional copies of `e`, each patched behind the fragment
/// from `start` to `end`.
pub open spec fn spec_optionals_rest(
    t: Seq<StateModel>,
    e: Hir,
    greedy: bool,
    left: nat,
    start: u32,
    end: u32,
) -> Built
    decreases e, 2nat, left,
{
    if left == 0 {
        Ok((t, ThompsonRef { start, end }))
    } else {
        match spec_zero_or_one(t, e, greedy) {
            Err(fault) => Err(fault),
            Ok((t1, r)) => spec_optionals_rest(
                spec_patch(t1, end, r.start),
                e,
                greedy,
                (left - 1) as nat,
                start,
                r.end,
            ),
        }
    }
}

/// `count` optional copies of `e` in a row; for `count == 0`, the fragment
/// that reads nothing.
pub open spec fn spec_optionals(t: Seq<StateModel>, e: Hir, greedy: bool, count: nat) -> Built
    decreases e, 3nat, count,
{
    if count == 0 {
        spec_empty(t)
    } else {
        match spec_zero_or_one(t, e, greedy) {
            Err(fault) => Err(fault),
            Ok((t1, r)) => spec_optionals_rest(t1, e, greedy, (count - 1) as nat, r.start, r.end),
        }
    }
}

/// The fragment that reads `e` from `min` to `max` times: `min` copies in
/// a row and, unless `min == max`, behind them one optional copy for each
/// number from `min` up to `max`.
pub open spec fn spec_bounded(t: Seq<StateModel>, e: Hir, greedy: bool, min: nat, max: nat) -> Built
    decreases e, 4nat, 0nat,
{
    match spec_exactly(t, e, min) {
        Err(fault) => Err(fault),
        Ok((t1, prefix)) => if min == max {
            Ok((t1, prefix))
        } else {
            match spec_optionals(t1, e, greedy, if max > min { (max - min) as nat } else { 0 }) {
                Err(fault) => Err(fault),
                Ok((t2, suffix)) => Ok(
                    (
                        spec_patch(t2, prefix.end, suffix.start),
                        ThompsonRef { start: prefix.start, end: suffix.end },
                    ),
                ),
            }
        },
    }
}

/// The fragment that reads `e` at least `n` times. A union closes a loop
/// around the last copy of `e`, so that the copy can be read again and
/// again; its open alternate is the exit.
pub open spec fn spec_at_least(t: Seq<StateModel>, e: Hir, greedy: bool, n: nat) -> Built
    decreases e, 3nat, 0nat,
{
    if n == 0 {
        match spec_union(t, greedy) {
            Err(fault) => Err(fault),
            Ok((t1, u)) => match spec_compile(t1, e) {
                Err(fault) => Err(fault),
                Ok((t2, r)) => Ok(
                    (
                        spec_patch(spec_patch(t2, u.start, r.start), r.end, u.start),
                        ThompsonRef { start: u.start, end: u.start },
                    ),
                ),
            },
        }
    } else if n == 1 {
        match spec_compile(t, e) {
            Err(fault) => Err(fault),
            Ok((t1, r)) => match spec_union(t1, greedy) {
                Err(fault) => Err(fault),
                Ok((t2, u)) => Ok(
                    (
                        spec_patch(spec_patch(t2, r.end, u.start), u.start, r.start),
                        ThompsonRef { start: r.start, end: u.start },
                    ),
                ),
            },
        }
    } else {
        match spec_exactly(t, e, (n - 1) as nat) {
            Err(fault) => Err(fault),
            Ok((t1, prefix)) => match spec_compile(t1, e) {
                Err(fault) => Err(fault),
                Ok((t2, last)) => match spec_union(t2, greedy) {
                    Err(fault) => Err(fault),
                    Ok((t3, u)) => Ok(
                        (
                            spec_patch(
                                spec_patch(spec_patch(t3, prefix.end, last.start), last.end, u.start),
                                u.start,
                                last.start,
                            ),
                            ThompsonRef { start: prefix.start, end: u.start },
                        ),
                    ),
                },
            },
        }
    }
}

/// The automaton for `e`: state 0 is an empty state that leads into the
/// fragment of `e`, and the fragment's exit leads to the match state, which
/// is the last state.
pub open spec fn spec_from_hir(e: Hir) -> Result<Seq<StateModel>, Fault> {
    match spec_empty(Seq::empty()) {
        Err(fault) => Err(fault),
        Ok((t0, s)) => match spec_compile(t0, e) {
            Err(fault) => Err(fault),
            Ok((t1, r)) => match spec_add(t1, StateModel::Match) {
                Err(fault) => Err(fault),
                Ok((t2, m)) => Ok(spec_patch(spec_patch(t2, s.start, r.start), r.end, m.start)),
            },
        },
    }
}

/// Whether a compilation step that started on the table `before` did what
/// the rule `want` asks: on success the table is the rule's table and the
/// fragment the rule's fragment, inside a well-formed table that has kept
/// every earlier state's place; on failure the error says why.
pub open spec fn agrees(
    before: Seq<StateModel>,
    after: Seq<StateModel>,
    got: Result<ThompsonRef, Error>,
    want: Built,
) -> bool {
    match want {
        Ok((t, r)) => {
            &&& got is Ok
            &&& got->Ok_0 == r
            &&& after == t
            &&& table_wf(t)
            &&& before.len() <= t.len()
            &&& (r.start as int) < t.len()
            &&& (r.end as int) < t.len()
        },
        Err(fault) => got is Err && got->Err_0@ == fault_message(fault),
    }
}

/// Patching a state of a well-formed table to a state of the table leaves
/// the table well formed.
pub proof fn lemma_patch_wf(t: Seq<StateModel>, from: u32, to: u32)
    requires
        table_wf(t),
        (to as int) < t.len(),
    ensures
        table_wf(spec_patch(t, from, to)),
        spec_patch(t, from, to).len() == t.len(),
{
    let t2 = spec_patch(t, from, to);
    assert forall|i: int| 0 <= i < t2.len() implies match #[trigger] t2[i] {
        StateModel::Empty { next } => (next as int) < t2.len(),
        StateModel::Range { next, .. } => (next as int) < t2.len(),
        StateModel::Union { alternates, .. } => forall|k: int|
            0 <= k < alternates.len() ==> (#[trigger] alternates[k] as int) < t2.len(),
        StateModel::Match => true,
    } by {
        let old_state = t[i];
        if i == from as int {
            match old_state {
                StateModel::Union { alternates, reverse } => {
                    let now = if reverse {
                        seq![to] + alternates
                    } else {
                        alternates.push(to)
                    };
                    assert forall|k: int| 0 <= k < now.len() implies (#[trigger] now[k] as int)
                        < t2.len() by {
                        if reverse {
                            if k > 0 {
                                assert(now[k] == alternates[k - 1]);
                            }
                        } else {
                            if k < alternates.len() {
                                assert(now[k] == alternates[k]);
                            }
                        }
                    }
                },
                _ => {},
            }
        }
    }
}

/// A new state whose successors are states of the grown table leaves the
/// table well formed.
pub proof fn lemma_add_wf(t: Seq<StateModel>, s: StateModel)
    requires
        table_wf(t),
        match s {
            StateModel::Empty { next } => next as int <= t.len(),
            StateModel::Range { next, .. } => next as int <= t.len(),
            StateModel::Union { alternates, .. } => alternates.len() == 0,
            StateModel::Match => true,
        },
    ensures
        table_wf(t.push(s)),
{
    let t2 = t.push(s);
    assert forall|i: int| 0 <= i < t2.len() implies match #[trigger] t2[i] {
        StateModel::Empty { next } => (next as int) < t2.len(),
        StateModel::Range { next, .. } => (next as int) < t2.len(),
        StateModel::Union { alternates, .. } => forall|k: int|
            0 <= k < alternates.len() ==> (#[trigger] alternates[k] as int) < t2.len(),
        StateModel::Match => true,
    } by {
        if i < t.len() {
            assert(t2[i] == t[i]);
        }
    }
}

impl NFAState {
    /// The state as a mathematical value.
    pub open spec fn model(&self) -> StateModel {
        match self {
            NFAState::Empty { next } => StateModel::Empty { next: *next },
            NFAState::Range { start, end, next } => StateModel::Range {
                start: *start,
                end: *end,
                next: *next,
            },
            NFAState::Union { alternates, reverse } => StateModel::Union {
                alternates: alternates@,
                reverse: *reverse,
            },
            NFAState::Match => StateModel::Match,
        }
    }

    /// Whether the state leads on without reading.
    pub fn is_epsilon(&self) -> (b: bool)
        ensures
            b == (self.model() is Empty || self.model() is Union),
    {
        match self {
            NFAState::Range { .. } | NFAState::Match => false,
            NFAState::Empty { .. } | NFAState::Union { .. } => true,
        }
    }
}

/// The error that reports `fault`.
pub fn fault_error(fault: Fault) -> (e: Error)
    ensures
        e@ == fault_message(fault),
{
    match fault {
        Fault::Anchor => Error::other("anchors are not supported"),
        Fault::WordBoundary => Error::other("word boundaries are not supported"),
        Fault::TooLarge => Error::other("too many states"),
    }
}

/// The first anchor or word boundary of `expr`, if it holds one
/// anywhere.
pub fn find_fault(expr: &Hir) -> (fault: Option<Fault>)
    ensures
        fault == first_fault(*expr),
    decreases *expr, 0nat,
{
    match expr {
        Hir::Anchor => Some(Fault::Anchor),
        Hir::WordBoundary => Some(Fault::WordBoundary),
        Hir::Repetition(rep) => {
            proof {
                assert(*expr is Repetition);
                assert(expr->Repetition_0 == *rep);
                assert(decreases_to!(*expr => expr->Repetition_0));
                assert(decreases_to!(*rep => *rep.hir));
            }
            find_fault(&rep.hir)
        },
        Hir::Group(inner) => {
            proof {
                assert(*expr is Group);
                assert(expr->Group_0 == *inner);
                assert(decreases_to!(*expr => expr->Group_0));
            }
            find_fault(inner)
        },
        Hir::Concat(exprs) => {
            proof {
                assert(*expr is Concat);
                assert(expr->Concat_0 == *exprs);
                assert(decreases_to!(*expr => expr->Concat_0));
                assert(decreases_to!(*exprs => exprs@));
            }
            find_fault_among(exprs)
        },
        Hir::Alternation(exprs) => {
            proof {
                assert(*expr is Alternation);
                assert(expr->Alternation_0 == *exprs);
                assert(decreases_to!(*expr => expr->Alternation_0));
                assert(decreases_to!(*exprs => exprs@));
            }
            find_fault_among(exprs)
        },
        _ => None,
    }
}

/// The first anchor or word boundary of the expressions.
pub fn find_fault_among(exprs: &Vec<Hir>) -> (fault: Option<Fault>)
    ensures
        fault == first_fault_from(exprs@, 0),
    decreases exprs@, 1nat,
{
    let mut i: usize = 0;
    while i < exprs.len()
        invariant
            i <= exprs@.len(),
            first_fault_from(exprs@, 0) == first_fault_from(exprs@, i as int),
        decreases exprs@.len() - i,
    {
        match find_fault(&exprs[i]) {
            Some(fault) => {
                return Some(fault);
            },
            None => {},
        }
        i += 1;
    }
    None
}

/// A nondeterministic automaton: a table of states, entered at state 0.
pub struct NFA {
    pub states: Vec<NFAState>,
}

impl NFA {
    /// The table of states.
    pub open spec fn view(&self) -> Seq<StateModel> {
        Seq::new(self.states@.len(), |i: int| self.states@[i].model())
    }

    /// The table has a state 0, names only its own states as successors,
    /// and is no larger than `NFA_MAX_STATES`.
    pub open spec fn wf(&self) -> bool {
        &&& 1 <= self@.len() <= NFA_MAX_STATES
        &&& table_wf(self@)
    }

    /// The automaton without states.
    pub fn empty() -> (nfa: NFA)
        ensures
            nfa@ == Seq::<StateModel>::empty(),
    {
        let nfa = NFA { states: Vec::new() };
        assert(nfa@ =~= Seq::<StateModel>::empty());
        nfa
    }

    /// The number of states.
    pub fn len(&self) -> (n: usize)
        ensures
            n == self@.len(),
    {
        self.states.len()
    }

    /// Compiles `expr` into an automaton, which accepts just what `expr`
    /// matches. Fails if `expr` holds an anchor or a word boundary
    /// anywhere, with the message of the first of them, and else if the
    /// automaton would be too large.
    pub fn from_hir(expr: &Hir) -> (r: Result<NFA, Error>)
        ensures
            match spec_from_hir(*expr) {
                Ok(t) => r is Ok && r->Ok_0@ == t && r->Ok_0.wf() && recognizes(t, *expr),
                Err(fault) => r is Err && r->Err_0@ == fault_message(fault),
            },
            first_fault(*expr) matches Some(fault) ==> r is Err && r->Err_0@ == fault_message(fault),
            first_fault(*expr) is None && r is Err ==> r->Err_0@ == fault_message(Fault::TooLarge),
            r is Ok ==> class_laws(*expr),
    {
        proof {
            if spec_from_hir(*expr) is Ok {
                lemma_recognizes(*expr);
            }
            lemma_faults(*expr);
        }
        let mut nfa = NFA::empty();
        let start = nfa.add_empty();
        let compiled = match nfa.compile(expr) {
            Ok(compiled) => compiled,
            Err(e) => {
                return Err(e);
            },
        };
        if nfa.states.len() >= NFA_MAX_STATES {
            return Err(Error::other("too many states"));
        }
        let match_id = nfa.add_match();
        nfa.patch(start, compiled.start);
        nfa.patch(compiled.end, match_id);
        Ok(nfa)
    }

    /// Adds the fragment for `expr` to the table. Fails before it adds a
    /// state if `expr` holds an anchor or a word boundary anywhere, with
    /// the message of the first of them.
    pub fn compile(&mut self, expr: &Hir) -> (r: Result<ThompsonRef, Error>)
        requires
            table_wf(old(self)@),
        ensures
            agrees(old(self)@, final(self)@, r, spec_compile(old(self)@, *expr)),
            first_fault(*expr) matches Some(fault) ==> r is Err && r->Err_0@ == fault_message(fault)
                && final(self)@ == old(self)@,
            first_fault(*expr) is None && r is Err ==> r->Err_0@ == fault_message(Fault::TooLarge),
            r is Ok ==> class_laws(*expr),
        decreases *expr, 0nat, 0nat,
    {
        proof {
            if first_fault(*expr) is None {
                lemma_large_compile(old(self)@, *expr);
            }
        }
        match find_fault(expr) {
            Some(fault) => {
                return Err(fault_error(fault));
            },
            None => {},
        }
        match expr {
            Hir::Empty => self.try_empty(),
            Hir::Literal(Literal::Unicode(c)) => {
                let bytes = encode_utf8(*c);
                let mut ranges: Vec<(u8, u8)> = Vec::new();
                let mut i: usize = 0;
                while i < bytes.len()
                    invariant
                        i <= bytes@.len(),
                        bytes@ == encode_scalar(*c as u32),
                        ranges@ == literal_ranges(*c).take(i as int),
                    decreases bytes@.len() - i,
                {
                    ranges.push((bytes[i], bytes[i]));
                    i += 1;
                    assert(ranges@ =~= literal_ranges(*c).take(i as int));
                }
                assert(literal_ranges(*c).take(i as int) =~= literal_ranges(*c));
                self.compile_sequence(&ranges)
            },
            Hir::Literal(Literal::Byte(b)) => self.try_range(*b, *b),
            Hir::Class(Class::Bytes(ranges)) => {
                let mut seqs: Vec<Vec<(u8, u8)>> = Vec::new();
                let mut i: usize = 0;
                while i < ranges.len()
                    invariant
                        i <= ranges@.len(),
                        sequence_views(seqs@) == byte_class_sequences(ranges@).take(i as int),
                    decreases ranges@.len() - i,
                {
                    let mut one: Vec<(u8, u8)> = Vec::new();
                    one.push((ranges[i].start, ranges[i].end));
                    assert(one@ =~= seq![(ranges@[i as int].start, ranges@[i as int].end)]);
                    let ghost earlier = seqs@;
                    seqs.push(one);
                    i += 1;
                    proof {
                        let now = sequence_views(seqs@);
                        let want = byte_class_sequences(ranges@).take(i as int);
                        assert(sequence_views(earlier).len() == earlier.len());
                        assert(byte_class_sequences(ranges@).take(i - 1).len() == i - 1);
                        assert(now.len() == want.len());
                        assert forall|k: int| 0 <= k < now.len() implies now[k] == want[k] by {
                            if k < i - 1 {
                                assert(sequence_views(earlier)[k] == byte_class_sequences(
                                    ranges@,
                                ).take(i - 1)[k]);
                            }
                        }
                        assert(now =~= want);
                    }
                }
                assert(byte_class_sequences(ranges@).take(i as int) =~= byte_class_sequences(
                    ranges@,
                ));
                self.compile_sequences(&seqs)
            },
            Hir::Class(Class::Unicode(ranges)) => self.compile_unicode_class(ranges),
            Hir::Repetition(rep) => {
                proof {
                    assert(*expr is Repetition);
                    assert(expr->Repetition_0 == *rep);
                    assert(decreases_to!(*expr => expr->Repetition_0));
                }
                self.compile_repetition(rep)
            },
            Hir::Group(inner) => {
                proof {
                    assert(*expr is Group);
                    assert(expr->Group_0 == *inner);
                    assert(decreases_to!(*expr => expr->Group_0));
                }
                self.compile(inner)
            },
            Hir::Concat(exprs) => {
                proof {
                    assert(*expr is Concat);
                    assert(expr->Concat_0 == *exprs);
                    assert(decreases_to!(*expr => expr->Concat_0));
                    assert(decreases_to!(*exprs => exprs@));
                }
                self.compile_concat(exprs)
            },
            Hir::Alternation(exprs) => {
                proof {
                    assert(*expr is Alternation);
                    assert(expr->Alternation_0 == *exprs);
                    assert(decreases_to!(*expr => expr->Alternation_0));
                    assert(decreases_to!(*exprs => exprs@));
                }
                self.compile_alternation(exprs)
            },
            Hir::Anchor => Err(Error::other("anchors are not supported")),
            Hir::WordBoundary => Err(Error::other("word boundaries are not supported")),
        }
    }

    /// Adds the fragments for `exprs` in a row.
    pub fn compile_concat(&mut self, exprs: &Vec<Hir>) -> (r: Result<ThompsonRef, Error>)
        requires
            table_wf(old(self)@),
        ensures
            agrees(old(self)@, final(self)@, r, spec_concat(old(self)@, exprs@)),
            r is Ok ==> forall|i: int| 0 <= i < exprs@.len() ==> class_laws(#[trigger] exprs@[i]),
        decreases exprs@, exprs@.len() + 1, 0nat,
    {
        if exprs.len() == 0 {
            return self.try_empty();
        }
        let first = match self.compile(&exprs[0]) {
            Ok(first) => first,
            Err(e) => {
                return Err(e);
            },
        };
        let start = first.start;
        let mut end = first.end;
        let mut i: usize = 1;
        while i < exprs.len()
            invariant
                forall|j: int| 0 <= j < i ==> class_laws(#[trigger] exprs@[j]),
                1 <= i <= exprs@.len(),
                table_wf(self@),
                old(self)@.len() <= self@.len(),
                (start as int) < self@.len(),
                (end as int) < self@.len(),
                spec_concat_rest(self@, exprs@, i as int, start, end) == spec_concat(
                    old(self)@,
                    exprs@,
                ),
            decreases exprs@.len() - i,
        {
            let ghost before = self@;
            let compiled = match self.compile(&exprs[i]) {
                Ok(compiled) => compiled,
                Err(e) => {
                    return Err(e);
                },
            };
            proof {
                lemma_patch_wf(self@, end, compiled.start);
            }
            self.patch(end, compiled.start);
            end = compiled.end;
            i += 1;
        }
        Ok(ThompsonRef { start, end })
    }

    /// Adds a union that leads into the fragment for each of `exprs`, and
    /// an empty state that each of those fragments leads to.
    pub fn compile_alternation(&mut self, exprs: &Vec<Hir>) -> (r: Result<ThompsonRef, Error>)
        requires
            table_wf(old(self)@),
        ensures
            agrees(old(self)@, final(self)@, r, spec_alternation(old(self)@, exprs@)),
            r is Ok ==> forall|i: int| 0 <= i < exprs@.len() ==> class_laws(#[trigger] exprs@[i]),
        decreases exprs@, exprs@.len() + 1, 0nat,
    {
        if self.states.len() >= NFA_MAX_STATES {
            return Err(Error::other("too many states"));
        }
        let union = self.add_union();
        let mut ends: Vec<u32> = Vec::new();
        let mut i: usize = 0;
        while i < exprs.len()
            invariant
                forall|j: int| 0 <= j < i ==> class_laws(#[trigger] exprs@[j]),
                i <= exprs@.len(),
                table_wf(self@),
                old(self)@.len() <= self@.len(),
                (union as int) < self@.len(),
                forall|k: int| 0 <= k < ends@.len() ==> (#[trigger] ends@[k] as int) < self@.len(),
                spec_alternation_rest(self@, exprs@, i as int, union, ends@) == spec_alternation(
                    old(self)@,
                    exprs@,
                ),
            decreases exprs@.len() - i,
        {
            let compiled = match self.compile(&exprs[i]) {
                Ok(compiled) => compiled,
                Err(e) => {
                    return Err(e);
                },
            };
            proof {
                lemma_patch_wf(self@, union, compiled.start);
            }
            self.patch(union, compiled.start);
            ends.push(compiled.end);
            i += 1;
        }
        self.join(union, &ends)
    }

    /// Adds the empty state that ends an alternation and leads every exit
    /// in `ends` to it.
    fn join(&mut self, union: u32, ends: &Vec<u32>) -> (r: Result<ThompsonRef, Error>)
        requires
            table_wf(old(self)@),
            (union as int) < old(self)@.len(),
            forall|k: int| 0 <= k < ends@.len() ==> (#[trigger] ends@[k] as int) < old(self)@.len(),
        ensures
            agrees(old(self)@, final(self)@, r, spec_join(old(self)@, union, ends@)),
    {
        if self.states.len() >= NFA_MAX_STATES {
            return Err(Error::other("too many states"));
        }
        let empty = self.add_empty();
        let ghost t1 = self@;
        let mut k: usize = 0;
        while k < ends.len()
            invariant
                k <= ends@.len(),
                table_wf(self@),
                self@.len() == t1.len(),
                (empty as int) < t1.len(),
                forall|j: int| 0 <= j < ends@.len() ==> (#[trigger] ends@[j] as int) < t1.len(),
                self@ == spec_patch_all(t1, ends@.take(k as int), empty),
            decreases ends@.len() - k,
        {
            proof {
                lemma_patch_wf(self@, ends@[k as int], empty);
                assert(ends@.take(k + 1).drop_last() =~= ends@.take(k as int));
            }
            self.patch(ends[k], empty);
            k += 1;
        }
        assert(ends@.take(k as int) =~= ends@);
        Ok(ThompsonRef { start: union, end: empty })
    }

    /// Adds one state for each byte range, each leading to the next.
    pub fn compile_sequence(&mut self, ranges: &Vec<(u8, u8)>) -> (r: Result<ThompsonRef, Error>)
        requires
            table_wf(old(self)@),
        ensures
            agrees(old(self)@, final(self)@, r, spec_sequence(old(self)@, ranges@)),
    {
        if ranges.len() == 0 {
            return self.try_empty();
        }
        let first = match self.try_range(ranges[0].0, ranges[0].1) {
            Ok(first) => first,
            Err(e) => {
                return Err(e);
            },
        };
        let start = first.start;
        let mut end = first.end;
        let mut i: usize = 1;
        while i < ranges.len()
            invariant
                1 <= i <= ranges@.len(),
                table_wf(self@),
                old(self)@.len() <= self@.len(),
                (start as int) < self@.len(),
                (end as int) < self@.len(),
                spec_sequence_rest(self@, ranges@, i as int, start, end) == spec_sequence(
                    old(self)@,
                    ranges@,
                ),
            decreases ranges@.len() - i,
        {
            let compiled = match self.try_range(ranges[i].0, ranges[i].1) {
                Ok(compiled) => compiled,
                Err(e) => {
                    return Err(e);
                },
            };
            proof {
                lemma_patch_wf(self@, end, compiled.start);
            }
            self.patch(end, compiled.start);
            end = compiled.end;
            i += 1;
        }
        Ok(ThompsonRef { start, end })
    }

    /// Adds a union that leads into one fragment for each sequence of byte
    /// ranges, and an empty state that each of those fragments leads to.
    pub fn compile_sequences(&mut self, seqs: &Vec<Vec<(u8, u8)>>) -> (r: Result<
        ThompsonRef,
        Error,
    >)
        requires
            table_wf(old(self)@),
        ensures
            agrees(old(self)@, final(self)@, r, spec_sequences(old(self)@, sequence_views(seqs@))),
    {
        if self.states.len() >= NFA_MAX_STATES {
            return Err(Error::other("too many states"));
        }
        let union = self.add_union();
        let ghost views = sequence_views(seqs@);
        let mut ends: Vec<u32> = Vec::new();
        let mut i: usize = 0;
        while i < seqs.len()
            invariant
                i <= seqs@.len(),
                views == sequence_views(seqs@),
                table_wf(self@),
                old(self)@.len() <= self@.len(),
                (union as int) < self@.len(),
                forall|k: int| 0 <= k < ends@.len() ==> (#[trigger] ends@[k] as int) < self@.len(),
                spec_sequences_rest(self@, views, i as int, union, ends@) == spec_sequences(
                    old(self)@,
                    views,
                ),
            decreases seqs@.len() - i,
        {
            assert(views[i as int] == seqs@[i as int]@);
            let compiled = match self.compile_sequence(&seqs[i]) {
                Ok(compiled) => compiled,
                Err(e) => {
                    return Err(e);
                },
            };
            proof {
                lemma_patch_wf(self@, union, compiled.start);
            }
            self.patch(union, compiled.start);
            ends.push(compiled.end);
            i += 1;
        }
        self.join(union, &ends)
    }

    /// Adds the fragment for a class of characters: the alternation of the
    /// byte range sequences that cover the UTF-8 encodings of each of its
    /// ranges.
    pub fn compile_unicode_class(&mut self, ranges: &Vec<ClassUnicodeRange>) -> (r: Result<
        ThompsonRef,
        Error,
    >)
        requires
            table_wf(old(self)@),
        ensures
            agrees(old(self)@, final(self)@, r, spec_sequences(old(self)@, class_sequences(ranges@))),
            class_law(ranges@),
    {
        let mut all: Vec<Vec<(u8, u8)>> = Vec::new();
        let mut i: usize = 0;
        assert(sequence_views(all@) =~= class_sequences(ranges@.take(0)));
        while i < ranges.len()
            invariant
                i <= ranges@.len(),
                sequence_views(all@) == class_sequences(ranges@.take(i as int)),
                forall|j: int|
                    0 <= j < i ==> sequences_law((#[trigger] ranges@[j]).start, ranges@[j].end),
            decreases ranges@.len() - i,
        {
            let mut seqs = utf8_sequences_of(ranges[i].start, ranges[i].end);
            assert(sequences_law(ranges@[i as int].start, ranges@[i as int].end));
            let ghost before = all@;
            let ghost added = seqs@;
            all.append(&mut seqs);
            proof {
                assert(ranges@.take(i + 1).drop_last() =~= ranges@.take(i as int));
                assert(ranges@.take(i + 1).last() == ranges@[i as int]);
                assert(all@ == before + added);
                assert(sequence_views(all@) =~= sequence_views(before) + sequence_views(added));
            }
            i += 1;
        }
        assert(ranges@.take(i as int) =~= ranges@);
        self.compile_sequences(&all)
    }

    /// Adds the fragment for a repetition.
    pub fn compile_repetition(&mut self, rep: &Repetition) -> (r: Result<ThompsonRef, Error>)
        requires
            table_wf(old(self)@),
        ensures
            agrees(old(self)@, final(self)@, r, spec_repetition(old(self)@, *rep)),
            r is Ok && repeats(rep.kind) ==> class_laws(*rep.hir),
        decreases *rep, 0nat, 0nat,
    {
        match rep.kind {
            RepetitionKind::ZeroOrOne => self.compile_zero_or_one(&rep.hir, rep.greedy),
            RepetitionKind::ZeroOrMore => self.compile_at_least(&rep.hir, rep.greedy, 0),
            RepetitionKind::OneOrMore => self.compile_at_least(&rep.hir, rep.greedy, 1),
            RepetitionKind::Range(RepetitionRange::Exactly(count)) => self.compile_exactly(
                &rep.hir,
                count,
            ),
            RepetitionKind::Range(RepetitionRange::AtLeast(m)) => self.compile_at_least(
                &rep.hir,
                rep.greedy,
                m,
            ),
            RepetitionKind::Range(RepetitionRange::Bounded(min, max)) => self.compile_bounded(
                &rep.hir,
                rep.greedy,
                min,
                max,
            ),
        }
    }

    /// Adds the fragment that reads `expr` from `min` to `max` times.
    pub fn compile_bounded(&mut self, expr: &Hir, greedy: bool, min: u32, max: u32) -> (r: Result<
        ThompsonRef,
        Error,
    >)
        requires
            table_wf(old(self)@),
        ensures
            agrees(
                old(self)@,
                final(self)@,
                r,
                spec_bounded(old(self)@, *expr, greedy, min as nat, max as nat),
            ),
            r is Ok && (min > 0 || max > min) ==> class_laws(*expr),
        decreases *expr, 4nat, 0nat,
    {
        let prefix = match self.compile_exactly(expr, min) {
            Ok(prefix) => prefix,
            Err(e) => {
                return Err(e);
            },
        };
        if min == max {
            return Ok(prefix);
        }
        let count = if max > min {
            max - min
        } else {
            0
        };
        let suffix = match self.compile_optionals(expr, greedy, count) {
            Ok(suffix) => suffix,
            Err(e) => {
                return Err(e);
            },
        };
        proof {
            lemma_patch_wf(self@, prefix.end, suffix.start);
        }
        self.patch(prefix.end, suffix.start);
        Ok(ThompsonRef { start: prefix.start, end: suffix.end })
    }

    /// Adds the fragment that reads `expr` at least `n` times.
    pub fn compile_at_least(&mut self, expr: &Hir, greedy: bool, n: u32) -> (r: Result<
        ThompsonRef,
        Error,
    >)
        requires
            table_wf(old(self)@),
        ensures
            agrees(old(self)@, final(self)@, r, spec_at_least(old(self)@, *expr, greedy, n as nat)),
            r is Ok ==> class_laws(*expr),
        decreases *expr, 3nat, 0nat,
    {
        if n == 0 {
            let union = match self.try_union(greedy) {
                Ok(union) => union,
                Err(e) => {
                    return Err(e);
                },
            };
            let compiled = match self.compile(expr) {
                Ok(compiled) => compiled,
                Err(e) => {
                    return Err(e);
                },
            };
            proof {
                lemma_patch_wf(self@, union, compiled.start);
                lemma_patch_wf(spec_patch(self@, union, compiled.start), compiled.end, union);
            }
            self.patch(union, compiled.start);
            self.patch(compiled.end, union);
            Ok(ThompsonRef { start: union, end: union })
        } else if n == 1 {
            let compiled = match self.compile(expr) {
                Ok(compiled) => compiled,
                Err(e) => {
                    return Err(e);
                },
            };
            let union = match self.try_union(greedy) {
                Ok(union) => union,
                Err(e) => {
                    return Err(e);
                },
            };
            proof {
                lemma_patch_wf(self@, compiled.end, union);
                lemma_patch_wf(spec_patch(self@, compiled.end, union), union, compiled.start);
            }
            self.patch(compiled.end, union);
            self.patch(union, compiled.start);
            Ok(ThompsonRef { start: compiled.start, end: union })
        } else {
            let prefix = match self.compile_exactly(expr, n - 1) {
                Ok(prefix) => prefix,
                Err(e) => {
                    return Err(e);
                },
            };
            let last = match self.compile(expr) {
                Ok(last) => last,
                Err(e) => {
                    return Err(e);
                },
            };
            let union = match self.try_union(greedy) {
                Ok(union) => union,
                Err(e) => {
                    return Err(e);
                },
            };
            proof {
                let t3 = self@;
                lemma_patch_wf(t3, prefix.end, last.start);
                let t4 = spec_patch(t3, prefix.end, last.start);
                lemma_patch_wf(t4, last.end, union);
                lemma_patch_wf(spec_patch(t4, last.end, union), union, last.start);
            }
            self.patch(prefix.end, last.start);
            self.patch(last.end, union);
            self.patch(union, last.start);
            Ok(ThompsonRef { start: prefix.start, end: union })
        }
    }

    /// Adds the fragment that reads `expr` or nothing.
    pub fn compile_zero_or_one(&mut self, expr: &Hir, greedy: bool) -> (r: Result<
        ThompsonRef,
        Error,
    >)
        requires
            table_wf(old(self)@),
        ensures
            agrees(old(self)@, final(self)@, r, spec_zero_or_one(old(self)@, *expr, greedy)),
            r is Ok ==> class_laws(*expr),
        decreases *expr, 1nat, 0nat,
    {
        let union = match self.try_union(greedy) {
            Ok(union) => union,
            Err(e) => {
                return Err(e);
            },
        };
        let compiled = match self.compile(expr) {
            Ok(compiled) => compiled,
            Err(e) => {
                return Err(e);
            },
        };
        let empty = match self.try_empty() {
            Ok(empty) => empty.start,
            Err(e) => {
                return Err(e);
            },
        };
        proof {
            let t3 = self@;
            lemma_patch_wf(t3, union, compiled.start);
            let t4 = spec_patch(t3, union, compiled.start);
            lemma_patch_wf(t4, union, empty);
            lemma_patch_wf(spec_patch(t4, union, empty), compiled.end, empty);
        }
        self.patch(union, compiled.start);
        self.patch(union, empty);
        self.patch(compiled.end, empty);
        Ok(ThompsonRef { start: union, end: empty })
    }

    /// Adds `count` optional copies of the fragment for `expr` in a row.
    fn compile_optionals(&mut self, expr: &Hir, greedy: bool, count: u32) -> (r: Result<
        ThompsonRef,
        Error,
    >)
        requires
            table_wf(old(self)@),
        ensures
            agrees(
                old(self)@,
                final(self)@,
                r,
                spec_optionals(old(self)@, *expr, greedy, count as nat),
            ),
            r is Ok && count > 0 ==> class_laws(*expr),
        decreases *expr, 3nat, count,
    {
        if count == 0 {
            return self.try_empty();
        }
        let first = match self.compile_zero_or_one(expr, greedy) {
            Ok(first) => first,
            Err(e) => {
                return Err(e);
            },
        };
        let start = first.start;
        let mut end = first.end;
        let mut left: u32 = count - 1;
        while left > 0
            invariant
                table_wf(self@),
                old(self)@.len() <= self@.len(),
                (start as int) < self@.len(),
                (end as int) < self@.len(),
                spec_optionals_rest(self@, *expr, greedy, left as nat, start, end)
                    == spec_optionals(old(self)@, *expr, greedy, count as nat),
            decreases left,
        {
            let compiled = match self.compile_zero_or_one(expr, greedy) {
                Ok(compiled) => compiled,
                Err(e) => {
                    return Err(e);
                },
            };
            proof {
                lemma_patch_wf(self@, end, compiled.start);
            }
            self.patch(end, compiled.start);
            end = compiled.end;
            left -= 1;
        }
        Ok(ThompsonRef { start, end })
    }

    /// Adds `n` copies of the fragment for `expr` in a row.
    pub fn compile_exactly(&mut self, expr: &Hir, n: u32) -> (r: Result<ThompsonRef, Error>)
        requires
            table_wf(old(self)@),
        ensures
            agrees(old(self)@, final(self)@, r, spec_exactly(old(self)@, *expr, n as nat)),
            r is Ok && n > 0 ==> class_laws(*expr),
        decreases *expr, 2nat, n,
    {
        if n == 0 {
            return match find_fault(expr) {
                Some(fault) => Err(fault_error(fault)),
                None => self.try_empty(),
            };
        }
        let first = match self.compile(expr) {
            Ok(first) => first,
            Err(e) => {
                return Err(e);
            },
        };
        let start = first.start;
        let mut end = first.end;
        let mut left: u32 = n - 1;
        while left > 0
            invariant
                table_wf(self@),
                old(self)@.len() <= self@.len(),
                (start as int) < self@.len(),
                (end as int) < self@.len(),
                spec_copies_rest(self@, *expr, left as nat, start, end) == spec_exactly(
                    old(self)@,
                    *expr,
                    n as nat,
                ),
            decreases left,
        {
            let compiled = match self.compile(expr) {
                Ok(compiled) => compiled,
                Err(e) => {
                    return Err(e);
                },
            };
            proof {
                lemma_patch_wf(self@, end, compiled.start);
            }
            self.patch(end, compiled.start);
            end = compiled.end;
            left -= 1;
        }
        Ok(ThompsonRef { start, end })
    }

    /// Adds a union state if there is room: one that takes alternates at
    /// the back for a greedy repetition, at the front for a lazy one.
    fn try_union(&mut self, greedy: bool) -> (r: Result<u32, Error>)
        requires
            table_wf(old(self)@),
        ensures
            match spec_union(old(self)@, greedy) {
                Ok((t, u)) => r == Ok::<u32, Error>(u.start) && final(self)@ == t && table_wf(t)
                    && t.len() == old(self)@.len() + 1 && u.start as int == old(self)@.len(),
                Err(fault) => r is Err && r->Err_0@ == fault_message(fault),
            },
    {
        if self.states.len() >= NFA_MAX_STATES {
            return Err(Error::other("too many states"));
        }
        if greedy {
            Ok(self.add_union())
        } else {
            Ok(self.add_reverse_union())
        }
    }

    /// Adds a state that reads one byte from `start` to `end`, if there is
    /// room.
    fn try_range(&mut self, start: u8, end: u8) -> (r: Result<ThompsonRef, Error>)
        requires
            table_wf(old(self)@),
        ensures
            agrees(old(self)@, final(self)@, r, spec_range(old(self)@, (start, end))),
    {
        if self.states.len() >= NFA_MAX_STATES {
            return Err(Error::other("too many states"));
        }
        Ok(self.compile_range(start, end))
    }

    /// Adds a state that reads nothing, if there is room.
    fn try_empty(&mut self) -> (r: Result<ThompsonRef, Error>)
        requires
            table_wf(old(self)@),
        ensures
            agrees(old(self)@, final(self)@, r, spec_empty(old(self)@)),
    {
        if self.states.len() >= NFA_MAX_STATES {
            return Err(Error::other("too many states"));
        }
        Ok(self.compile_empty())
    }

    /// Adds a state that reads one byte from `start` to `end`, as a
    /// fragment.
    pub fn compile_range(&mut self, start: u8, end: u8) -> (r: ThompsonRef)
        requires
            table_wf(old(self)@),
            old(self)@.len() < NFA_MAX_STATES,
        ensures
            spec_range(old(self)@, (start, end)) == Ok::<(Seq<StateModel>, ThompsonRef), Fault>(
                (final(self)@, r),
            ),
            table_wf(final(self)@),
    {
        let id = self.add_range(start, end);
        ThompsonRef { start: id, end: id }
    }

    /// Adds a state that reads nothing, as a fragment.
    pub fn compile_empty(&mut self) -> (r: ThompsonRef)
        requires
            table_wf(old(self)@),
            old(self)@.len() < NFA_MAX_STATES,
        ensures
            spec_empty(old(self)@) == Ok::<(Seq<StateModel>, ThompsonRef), Fault>(
                (final(self)@, r),
            ),
            table_wf(final(self)@),
    {
        let id = self.add_empty();
        ThompsonRef { start: id, end: id }
    }

    /// Gives the state `from` the successor `to`.
    pub fn patch(&mut self, from: u32, to: u32)
        requires
            (from as int) < old(self)@.len(),
        ensures
            final(self)@ == spec_patch(old(self)@, from, to),
    {
        let i = from as usize;
        let ghost before = self.states@;
        match &mut self.states[i] {
            NFAState::Empty { next } => {
                *next = to;
            },
            NFAState::Range { next, .. } => {
                *next = to;
            },
            NFAState::Union { alternates, reverse } => {
                let ghost earlier = alternates@;
                if *reverse {
                    alternates.insert(0, to);
                    assert(alternates@ =~= seq![to] + earlier);
                } else {
                    alternates.push(to);
                }
            },
            NFAState::Match => {},
        }
        proof {
            assert(self.states@.len() == before.len());
            assert(self.states@[i as int].model() == patched(before[i as int].model(), to));
            assert forall|k: int| 0 <= k < before.len() && k != i implies self.states@[k]
                == before[k] by {}
            assert(self@ =~= spec_patch(old(self)@, from, to));
        }
    }

    /// Appends `state` and returns its identifier.
    fn add_state(&mut self, state: NFAState) -> (id: u32)
        requires
            old(self)@.len() < NFA_MAX_STATES,
        ensures
            id as int == old(self)@.len(),
            final(self)@ == old(self)@.push(state.model()),
    {
        let id = self.states.len() as u32;
        self.states.push(state);
        assert(self@ =~= old(self)@.push(state.model()));
        id
    }

    /// Appends a state that reads nothing; its successor is still open.
    pub fn add_empty(&mut self) -> (id: u32)
        requires
            table_wf(old(self)@),
            old(self)@.len() < NFA_MAX_STATES,
        ensures
            id as int == old(self)@.len(),
            final(self)@ == old(self)@.push(StateModel::Empty { next: 0 }),
            table_wf(final(self)@),
    {
        proof {
            lemma_add_wf(self@, StateModel::Empty { next: 0 });
        }
        self.add_state(NFAState::Empty { next: 0 })
    }

    /// Appends a state that reads one byte from `start` to `end`; its
    /// successor is still open.
    pub fn add_range(&mut self, start: u8, end: u8) -> (id: u32)
        requires
            table_wf(old(self)@),
            old(self)@.len() < NFA_MAX_STATES,
        ensures
            id as int == old(self)@.len(),
            final(self)@ == old(self)@.push(StateModel::Range { start, end, next: 0 }),
            table_wf(final(self)@),
    {
        proof {
            lemma_add_wf(self@, StateModel::Range { start, end, next: 0 });
        }
        self.add_state(NFAState::Range { start, end, next: 0 })
    }

    /// Appends a union without alternates that takes new alternates at the
    /// back.
    pub fn add_union(&mut self) -> (id: u32)
        requires
            table_wf(old(self)@),
            old(self)@.len() < NFA_MAX_STATES,
        ensures
            id as int == old(self)@.len(),
            final(self)@ == old(self)@.push(
                StateModel::Union { alternates: Seq::empty(), reverse: false },
            ),
            table_wf(final(self)@),
    {
        proof {
            lemma_add_wf(self@, StateModel::Union { alternates: Seq::empty(), reverse: false });
        }
        self.add_state(NFAState::Union { alternates: Vec::new(), reverse: false })
    }

    /// Appends a union without alternates that takes new alternates at the
    /// front.
    pub fn add_reverse_union(&mut self) -> (id: u32)
        requires
            table_wf(old(self)@),
            old(self)@.len() < NFA_MAX_STATES,
        ensures
            id as int == old(self)@.len(),
            final(self)@ == old(self)@.push(
                StateModel::Union { alternates: Seq::empty(), reverse: true },
            ),
            table_wf(final(self)@),
    {
        proof {
            lemma_add_wf(self@, StateModel::Union { alternates: Seq::empty(), reverse: true });
        }
        self.add_state(NFAState::Union { alternates: Vec::new(), reverse: true })
    }

    /// Appends the accepting state.
    pub fn add_match(&mut self) -> (id: u32)
        requires
            table_wf(old(self)@),
            old(self)@.len() < NFA_MAX_STATES,
        ensures
            id as int == old(self)@.len(),
            final(self)@ == old(self)@.push(StateModel::Match),
            table_wf(final(self)@),
    {
        proof {
            lemma_add_wf(self@, StateModel::Match);
        }
        self.add_state(NFAState::Match)
    }
}

} // verus!
