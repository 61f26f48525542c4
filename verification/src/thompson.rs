//! What a regular expression matches, and that its automaton accepts just
//! that.

use vstd::prelude::*;
use vstd::utf8::encode_scalar;
use crate::nfa::{
    class_law,
    class_laws,
    first_fault,
    first_fault_from,
    Built,
    Fault,
    byte_class_sequences,
    class_sequences,
    literal_ranges,
    patched,
    spec_add,
    spec_alternation,
    spec_alternation_rest,
    spec_at_least,
    spec_bounded,
    spec_compile,
    spec_concat,
    spec_concat_rest,
    spec_copies_rest,
    spec_empty,
    spec_exactly,
    spec_from_hir,
    spec_join,
    spec_optionals,
    spec_optionals_rest,
    spec_patch,
    spec_patch_all,
    spec_range,
    spec_repetition,
    spec_sequence,
    spec_sequence_rest,
    spec_sequences,
    spec_sequences_rest,
    spec_union,
    spec_zero_or_one,
    StateModel,
    ThompsonRef,
    NFA_MAX_STATES,
};
use crate::determinize::same_language;
use crate::dfa::DFA;
use crate::nfa_lang::{after, eps_edge, eps_path, eps_reach, nfa_accepts, reads, step_set};
use crate::utf8::{encodes_in, in_sequence, in_sequences, sequences_law, utf8_sequences};
use crate::pattern::{
    Class,
    ClassBytesRange,
    ClassUnicodeRange,
    Hir,
    Literal,
    Repetition,
    RepetitionKind,
    RepetitionRange,
};

verus! {

/// Whether `byte` is in one of the ranges of bytes.
pub open spec fn in_byte_class(ranges: Seq<ClassBytesRange>, byte: u8) -> bool {
    exists|i: int| 0 <= i < ranges.len() && (#[trigger] ranges[i]).start <= byte <= ranges[i].end
}

/// A set of texts, as the predicate that holds of its members.
pub type Language = spec_fn(Seq<u8>) -> bool;

/// Whether `s` is made of `n` texts of the language `l`.
pub open spec fn power_of(l: Language, n: nat, s: Seq<u8>) -> bool
    decreases n,
{
    if n == 0 {
        s.len() == 0
    } else {
        exists|k: int|
            0 <= k <= s.len() && #[trigger] l(s.take(k)) && power_of(l, (n - 1) as nat, s.skip(k))
    }
}

/// Whether `s` is made of at least `min` and at most `max` texts of the
/// language `l`.
pub open spec fn between_of(l: Language, min: nat, max: nat, s: Seq<u8>) -> bool {
    exists|n: nat| min <= n <= max && #[trigger] power_of(l, n, s)
}

/// Whether `s` is made of at least `min` texts of the language `l`.
pub open spec fn at_least_of(l: Language, min: nat, s: Seq<u8>) -> bool {
    exists|n: nat| min <= n && #[trigger] power_of(l, n, s)
}

/// Whether `s` is made of texts of the languages from `i` on, one of each
/// in order.
pub open spec fn concat_of(ls: Seq<Language>, i: int, s: Seq<u8>) -> bool
    decreases ls.len() - i,
{
    if i < 0 || i >= ls.len() {
        s.len() == 0
    } else {
        exists|k: int|
            0 <= k <= s.len() && #[trigger] ls[i](s.take(k)) && concat_of(ls, i + 1, s.skip(k))
    }
}

/// Whether `s` is a text of one of the languages from `i` on.
pub open spec fn any_of(ls: Seq<Language>, i: int, s: Seq<u8>) -> bool {
    exists|j: int| 0 <= i <= j < ls.len() && #[trigger] ls[j](s)
}

/// The languages of the expressions.
pub open spec fn languages(exprs: Seq<Hir>) -> Seq<Language>
    decreases exprs,
{
    Seq::new(
        exprs.len(),
        |i: int|
            if 0 <= i < exprs.len() {
                language(exprs[i])
            } else {
                |s: Seq<u8>| false
            },
    )
}

/// The texts that the expression matches as a whole.
///
/// A character matches its UTF-8 encoding, a byte itself, a class of bytes
/// each byte of its ranges, a class of characters what the byte range
/// sequences of its ranges match. An anchor and a word boundary match
/// nothing. A repetition from `min` to a smaller `max` times is one
/// of `min` times.
pub open spec fn language(e: Hir) -> Language
    decreases e,
{
    match e {
        Hir::Empty => |s: Seq<u8>| s.len() == 0,
        Hir::Literal(Literal::Unicode(c)) => |s: Seq<u8>| s == encode_scalar(c as u32),
        Hir::Literal(Literal::Byte(b)) => |s: Seq<u8>| s == seq![b],
        Hir::Class(Class::Bytes(ranges)) => |s: Seq<u8>| s.len() == 1 && in_byte_class(ranges@, s[0]),
        Hir::Class(Class::Unicode(ranges)) => |s: Seq<u8>| in_sequences(class_sequences(ranges@), s),
        Hir::Repetition(rep) => match rep.kind {
            RepetitionKind::ZeroOrOne => |s: Seq<u8>| between_of(language(*rep.hir), 0, 1, s),
            RepetitionKind::ZeroOrMore => |s: Seq<u8>| at_least_of(language(*rep.hir), 0, s),
            RepetitionKind::OneOrMore => |s: Seq<u8>| at_least_of(language(*rep.hir), 1, s),
            RepetitionKind::Range(RepetitionRange::Exactly(n)) => |s: Seq<u8>|
                power_of(language(*rep.hir), n as nat, s),
            RepetitionKind::Range(RepetitionRange::AtLeast(n)) => |s: Seq<u8>|
                at_least_of(language(*rep.hir), n as nat, s),
            RepetitionKind::Range(RepetitionRange::Bounded(min, max)) => |s: Seq<u8>|
                between_of(
                    language(*rep.hir),
                    min as nat,
                    if max > min {
                        max as nat
                    } else {
                        min as nat
                    },
                    s,
                ),
        },
        Hir::Group(inner) => language(*inner),
        Hir::Concat(exprs) => |s: Seq<u8>| concat_of(languages(exprs@), 0, s),
        Hir::Alternation(exprs) => |s: Seq<u8>| any_of(languages(exprs@), 0, s),
        Hir::Anchor => |s: Seq<u8>| false,
        Hir::WordBoundary => |s: Seq<u8>| false,
    }
}

/// Whether the expression matches the whole of `s`.
pub open spec fn matches(e: Hir, s: Seq<u8>) -> bool {
    language(e)(s)
}

/// Whether `n` transitions lead from `a` to `x` and read `s`, through
/// states from `lo` up to `hi` only, but for `x` itself.
pub open spec fn walk(
    t: Seq<StateModel>,
    a: u32,
    x: u32,
    s: Seq<u8>,
    lo: int,
    hi: int,
    n: nat,
) -> bool
    decreases n,
{
    if n == 0 {
        a == x && s.len() == 0
    } else {
        lo <= a < hi && ((exists|c: u32|
            eps_edge(t, a, c) && walk(t, c, x, s, lo, hi, (n - 1) as nat)) || (s.len() > 0
            && exists|c: u32|
            reads(t, a, s[0], c) && walk(t, c, x, s.drop_first(), lo, hi, (n - 1) as nat)))
    }
}

/// Whether transitions lead from `a` to `x` and read `s`, through states
/// from `lo` up to `hi` only, but for `x` itself.
pub open spec fn walks(t: Seq<StateModel>, a: u32, x: u32, s: Seq<u8>, lo: int, hi: int) -> bool {
    exists|n: nat| walk(t, a, x, s, lo, hi, n)
}

/// Whether a transition leads from `a` to `c`.
pub open spec fn leads(t: Seq<StateModel>, a: u32, c: u32) -> bool {
    eps_edge(t, a, c) || exists|byte: u8| reads(t, a, byte, c)
}

/// Every transition out of a state from `lo` up to `hi` leads to such a
/// state or to `x`.
pub open spec fn confined(t: Seq<StateModel>, lo: int, hi: int, x: u32) -> bool {
    forall|a: u32, c: u32| lo <= a < hi && #[trigger] leads(t, a, c) ==> lo <= c < hi || c == x
}

/// A walk and a walk from its end make a walk.
pub proof fn lemma_walk_join(
    t: Seq<StateModel>,
    a: u32,
    b: u32,
    x: u32,
    s1: Seq<u8>,
    s2: Seq<u8>,
    lo: int,
    hi: int,
    n: nat,
    m: nat,
)
    requires
        walk(t, a, b, s1, lo, hi, n),
        walk(t, b, x, s2, lo, hi, m),
    ensures
        walk(t, a, x, s1 + s2, lo, hi, n + m),
    decreases n,
{
    if n == 0 {
        assert(s1 + s2 =~= s2);
    } else {
        let k = (n - 1) as nat;
        if exists|c: u32| eps_edge(t, a, c) && walk(t, c, b, s1, lo, hi, k) {
            let c = choose|c: u32| eps_edge(t, a, c) && walk(t, c, b, s1, lo, hi, k);
            lemma_walk_join(t, c, b, x, s1, s2, lo, hi, k, m);
            assert(eps_edge(t, a, c) && walk(t, c, x, s1 + s2, lo, hi, (n + m - 1) as nat));
        } else {
            let c = choose|c: u32| reads(t, a, s1[0], c) && walk(t, c, b, s1.drop_first(), lo, hi, k);
            lemma_walk_join(t, c, b, x, s1.drop_first(), s2, lo, hi, k, m);
            assert((s1 + s2).drop_first() =~= s1.drop_first() + s2);
            assert((s1 + s2)[0] == s1[0]);
            assert(reads(t, a, (s1 + s2)[0], c) && walk(
                t,
                c,
                x,
                (s1 + s2).drop_first(),
                lo,
                hi,
                (n + m - 1) as nat,
            ));
        }
    }
}

/// A walk through some states is a walk through more states.
pub proof fn lemma_walk_wider(
    t: Seq<StateModel>,
    a: u32,
    x: u32,
    s: Seq<u8>,
    lo: int,
    hi: int,
    lo2: int,
    hi2: int,
    n: nat,
)
    requires
        walk(t, a, x, s, lo, hi, n),
        lo2 <= lo,
        hi <= hi2,
    ensures
        walk(t, a, x, s, lo2, hi2, n),
    decreases n,
{
    if n > 0 {
        let k = (n - 1) as nat;
        if exists|c: u32| eps_edge(t, a, c) && walk(t, c, x, s, lo, hi, k) {
            let c = choose|c: u32| eps_edge(t, a, c) && walk(t, c, x, s, lo, hi, k);
            lemma_walk_wider(t, c, x, s, lo, hi, lo2, hi2, k);
            assert(eps_edge(t, a, c) && walk(t, c, x, s, lo2, hi2, k));
        } else {
            let c = choose|c: u32| reads(t, a, s[0], c) && walk(t, c, x, s.drop_first(), lo, hi, k);
            lemma_walk_wider(t, c, x, s.drop_first(), lo, hi, lo2, hi2, k);
            assert(reads(t, a, s[0], c) && walk(t, c, x, s.drop_first(), lo2, hi2, k));
        }
    }
}

/// A walk that begins among confined states stays among them.
pub proof fn lemma_walk_stays(
    t: Seq<StateModel>,
    a: u32,
    x: u32,
    s: Seq<u8>,
    lo: int,
    hi: int,
    lo2: int,
    hi2: int,
    n: nat,
)
    requires
        walk(t, a, x, s, lo, hi, n),
        confined(t, lo2, hi2, x),
        lo2 <= a < hi2 || a == x,
        !(lo2 <= x < hi2),
        !(lo <= x < hi),
    ensures
        walk(t, a, x, s, lo2, hi2, n),
    decreases n,
{
    if n > 0 {
        let k = (n - 1) as nat;
        if exists|c: u32| eps_edge(t, a, c) && walk(t, c, x, s, lo, hi, k) {
            let c = choose|c: u32| eps_edge(t, a, c) && walk(t, c, x, s, lo, hi, k);
            assert(leads(t, a, c));
            lemma_walk_stays(t, c, x, s, lo, hi, lo2, hi2, k);
            assert(eps_edge(t, a, c) && walk(t, c, x, s, lo2, hi2, k));
        } else {
            let c = choose|c: u32| reads(t, a, s[0], c) && walk(t, c, x, s.drop_first(), lo, hi, k);
            assert(leads(t, a, c));
            lemma_walk_stays(t, c, x, s.drop_first(), lo, hi, lo2, hi2, k);
            assert(reads(t, a, s[0], c) && walk(t, c, x, s.drop_first(), lo2, hi2, k));
        }
    }
}

/// A walk from among confined states to a state that is not among them
/// leaves them through their way out: it is a walk to the way out and a
/// walk on from there.
pub proof fn lemma_walk_leaves(
    t: Seq<StateModel>,
    a: u32,
    x: u32,
    s: Seq<u8>,
    lo: int,
    hi: int,
    lo2: int,
    hi2: int,
    y: u32,
    n: nat,
) -> (r: (int, nat))
    requires
        walk(t, a, x, s, lo, hi, n),
        confined(t, lo2, hi2, y),
        lo2 <= a < hi2,
        !(lo2 <= x < hi2),
        !(lo2 <= y < hi2),
        lo <= lo2,
        hi2 <= hi,
    ensures
        0 <= r.0 <= s.len(),
        1 <= r.1 <= n,
        walk(t, a, y, s.take(r.0), lo2, hi2, r.1),
        walk(t, y, x, s.skip(r.0), lo, hi, (n - r.1) as nat),
    decreases n,
{
    assert(n > 0);
    let k = (n - 1) as nat;
    if exists|c: u32| eps_edge(t, a, c) && walk(t, c, x, s, lo, hi, k) {
        let c = choose|c: u32| eps_edge(t, a, c) && walk(t, c, x, s, lo, hi, k);
        assert(leads(t, a, c));
        if lo2 <= c < hi2 {
            let (j, m) = lemma_walk_leaves(t, c, x, s, lo, hi, lo2, hi2, y, k);
            assert(eps_edge(t, a, c) && walk(t, c, y, s.take(j), lo2, hi2, m));
            (j, m + 1)
        } else {
            assert(c == y);
            assert(s.take(0) =~= Seq::<u8>::empty());
            assert(s.skip(0) =~= s);
            assert(eps_edge(t, a, c) && walk(t, c, y, s.take(0), lo2, hi2, 0));
            (0, 1)
        }
    } else {
        let c = choose|c: u32| reads(t, a, s[0], c) && walk(t, c, x, s.drop_first(), lo, hi, k);
        assert(leads(t, a, c));
        let rest = s.drop_first();
        if lo2 <= c < hi2 {
            let (j, m) = lemma_walk_leaves(t, c, x, rest, lo, hi, lo2, hi2, y, k);
            assert(s.take(j + 1).drop_first() =~= rest.take(j));
            assert(s.take(j + 1)[0] == s[0]);
            assert(s.skip(j + 1) =~= rest.skip(j));
            assert(reads(t, a, s.take(j + 1)[0], c) && walk(
                t,
                c,
                y,
                s.take(j + 1).drop_first(),
                lo2,
                hi2,
                m,
            ));
            (j + 1, m + 1)
        } else {
            assert(c == y);
            assert(s.take(1).drop_first() =~= Seq::<u8>::empty());
            assert(s.take(1)[0] == s[0]);
            assert(s.skip(1) =~= rest);
            assert(reads(t, a, s.take(1)[0], c) && walk(
                t,
                c,
                y,
                s.take(1).drop_first(),
                lo2,
                hi2,
                0,
            ));
            (1, 1)
        }
    }
}

/// Whether every transition of the states from `lo` up to `hi` that is
/// set leads to one of these states. The states of `open` may still lack
/// their way on; none of the states accepts.
pub open spec fn inner_ok(t: Seq<StateModel>, lo: int, hi: int, open: Seq<u32>) -> bool {
    forall|q: int|
        lo <= q < hi ==> match #[trigger] t[q] {
            StateModel::Empty { next } => open.contains(q as u32) || lo <= next < hi,
            StateModel::Range { next, .. } => open.contains(q as u32) || lo <= next < hi,
            StateModel::Union { alternates, .. } => forall|k: int|
                0 <= k < alternates.len() ==> lo <= #[trigger] alternates[k] < hi,
            StateModel::Match => false,
        }
}

/// Whether `t1` is `t` with a fragment behind it: the fragment begins
/// with its first state, its exit is one of its states, the states of `t`
/// are as they were, and the transitions of the fragment stay in it, but
/// for the way on from its exit.
pub open spec fn shape(t: Seq<StateModel>, t1: Seq<StateModel>, r: ThompsonRef) -> bool {
    &&& t.len() < t1.len() <= NFA_MAX_STATES
    &&& r.start as int == t.len()
    &&& t.len() <= r.end < t1.len()
    &&& forall|q: int| 0 <= q < t.len() ==> #[trigger] t1[q] == t[q]
    &&& inner_ok(t1, t.len() as int, t1.len() as int, seq![r.end])
}

/// Whether the table `host` holds, from `lo` up to `hi`, the states of
/// `t1` with the state `end` led on to `x`, which is none of them.
pub open spec fn hosts(
    host: Seq<StateModel>,
    t1: Seq<StateModel>,
    end: u32,
    x: u32,
    lo: int,
    hi: int,
) -> bool {
    &&& 0 <= lo <= end < hi <= t1.len()
    &&& hi <= host.len()
    &&& !(lo <= x < hi)
    &&& forall|q: int| lo <= q < hi ==> #[trigger] host[q] == spec_patch(t1, end, x)[q]
}

/// In a host of a fragment the transitions of the fragment lead into the
/// fragment or to the way out.
pub proof fn lemma_hosted_confined(
    host: Seq<StateModel>,
    t1: Seq<StateModel>,
    end: u32,
    x: u32,
    lo: int,
    hi: int,
)
    requires
        hosts(host, t1, end, x, lo, hi),
        inner_ok(t1, lo, hi, seq![end]),
    ensures
        confined(host, lo, hi, x),
{
    assert forall|a: u32, c: u32| lo <= a < hi && #[trigger] leads(host, a, c) implies lo <= c < hi
        || c == x by {
        let q = a as int;
        assert(host[q] == spec_patch(t1, end, x)[q]);
        let was = t1[q];
        if q == end as int {
            assert(host[q] == patched(was, x));
            match was {
                StateModel::Union { alternates, reverse } => {
                    let now = if reverse {
                        seq![x] + alternates
                    } else {
                        alternates.push(x)
                    };
                    assert(now.contains(c));
                    let k = choose|k: int| 0 <= k < now.len() && now[k] == c;
                    if reverse {
                        if k > 0 {
                            assert(now[k] == alternates[k - 1]);
                        }
                    } else {
                        if k < alternates.len() {
                            assert(now[k] == alternates[k]);
                        }
                    }
                },
                _ => {},
            }
        } else {
            assert(host[q] == was);
            assert(!seq![end].contains(q as u32)) by {
                if seq![end].contains(q as u32) {
                    let k = choose|k: int| 0 <= k < 1 && seq![end][k] == q as u32;
                }
            }
            match was {
                StateModel::Union { alternates, reverse } => {
                    let k = choose|k: int| 0 <= k < alternates.len() && alternates[k] == c;
                },
                _ => {},
            }
        }
    }
}

/// A walk through a fragment and its continuation: what a walk from the
/// fragment's entry to `x` reads is what a walk through the fragment to
/// its way out `y` reads and then a walk from `y` on to `x`.
pub proof fn lemma_compose(
    t: Seq<StateModel>,
    start: u32,
    y: u32,
    x: u32,
    s: Seq<u8>,
    lo: int,
    mid: int,
    hi: int,
)
    requires
        lo <= start < mid <= hi,
        confined(t, lo, mid, y),
        confined(t, mid, hi, x),
        mid <= y < hi || y == x,
        !(lo <= x < hi),
    ensures
        walks(t, start, x, s, lo, hi) <==> exists|k: int|
            0 <= k <= s.len() && #[trigger] walks(t, start, y, s.take(k), lo, mid) && walks(
                t,
                y,
                x,
                s.skip(k),
                mid,
                hi,
            ),
{
    if walks(t, start, x, s, lo, hi) {
        let n = choose|n: nat| walk(t, start, x, s, lo, hi, n);
        let (k, m) = lemma_walk_leaves(t, start, x, s, lo, hi, lo, mid, y, n);
        lemma_walk_stays(t, y, x, s.skip(k), lo, hi, mid, hi, (n - m) as nat);
        assert(walks(t, start, y, s.take(k), lo, mid) && walks(t, y, x, s.skip(k), mid, hi));
    }
    if exists|k: int|
        0 <= k <= s.len() && #[trigger] walks(t, start, y, s.take(k), lo, mid) && walks(
            t,
            y,
            x,
            s.skip(k),
            mid,
            hi,
        ) {
        let k = choose|k: int|
            0 <= k <= s.len() && #[trigger] walks(t, start, y, s.take(k), lo, mid) && walks(
                t,
                y,
                x,
                s.skip(k),
                mid,
                hi,
            );
        let n = choose|n: nat| walk(t, start, y, s.take(k), lo, mid, n);
        let m = choose|m: nat| walk(t, y, x, s.skip(k), mid, hi, m);
        lemma_walk_wider(t, start, y, s.take(k), lo, mid, lo, hi, n);
        lemma_walk_wider(t, y, x, s.skip(k), mid, hi, lo, hi, m);
        lemma_walk_join(t, start, y, x, s.take(k), s.skip(k), lo, hi, n, m);
        assert(s.take(k) + s.skip(k) =~= s);
    }
}

/// The state that was added last is a fragment of its own, if it is
/// empty, reads a byte or is a union without alternates.
pub proof fn lemma_shape_add(t: Seq<StateModel>, s: StateModel)
    requires
        spec_add(t, s) is Ok,
        s is Empty || s is Range || (s matches StateModel::Union { alternates, .. }
            && alternates.len() == 0),
    ensures
        shape(t, spec_add(t, s)->Ok_0.0, spec_add(t, s)->Ok_0.1),
        spec_add(t, s)->Ok_0.0 == t.push(s),
{
    let t1 = t.push(s);
    let end = t.len() as u32;
    assert(seq![end].contains(end)) by {
        assert(seq![end][0] == end);
    }
}

/// Leading a state of `open` on to a state of the fragment leaves the
/// other states of `open` open.
pub proof fn lemma_patch_inner(
    t: Seq<StateModel>,
    lo: int,
    hi: int,
    open: Seq<u32>,
    from: u32,
    to: u32,
    rest: Seq<u32>,
)
    requires
        inner_ok(t, lo, hi, open),
        0 <= lo <= from < hi <= t.len(),
        hi <= NFA_MAX_STATES,
        lo <= to < hi,
        forall|q: u32| #[trigger] open.contains(q) && q != from ==> rest.contains(q),
    ensures
        inner_ok(spec_patch(t, from, to), lo, hi, rest),
        spec_patch(t, from, to).len() == t.len(),
{
    let t2 = spec_patch(t, from, to);
    assert forall|q: int| lo <= q < hi implies match #[trigger] t2[q] {
        StateModel::Empty { next } => rest.contains(q as u32) || lo <= next < hi,
        StateModel::Range { next, .. } => rest.contains(q as u32) || lo <= next < hi,
        StateModel::Union { alternates, .. } => forall|k: int|
            0 <= k < alternates.len() ==> lo <= #[trigger] alternates[k] < hi,
        StateModel::Match => false,
    } by {
        let was = t[q];
        if q == from as int {
            match was {
                StateModel::Union { alternates, reverse } => {
                    let now = if reverse {
                        seq![to] + alternates
                    } else {
                        alternates.push(to)
                    };
                    assert forall|k: int| 0 <= k < now.len() implies lo <= #[trigger] now[k]
                        < hi by {
                        if reverse {
                            if k > 0 {
                                assert(now[k] == alternates[k - 1]);
                            }
                        } else {
                            if k < alternates.len() {
                                assert(now[k] == alternates[k]);
                            }
                        }
                    }
                },
                _ => {},
            }
        } else {
            assert(t2[q] == was);
            if open.contains(q as u32) {
                assert(rest.contains(q as u32));
            }
        }
    }
}

/// A fragment behind a chain of fragments, with the chain's exit led on
/// to it, makes a longer chain.
pub proof fn lemma_chain_step(
    t: Seq<StateModel>,
    lo: int,
    end: u32,
    t1: Seq<StateModel>,
    r: ThompsonRef,
)
    requires
        0 <= lo <= end < t.len(),
        inner_ok(t, lo, t.len() as int, seq![end]),
        shape(t, t1, r),
    ensures
        inner_ok(spec_patch(t1, end, r.start), lo, t1.len() as int, seq![r.end]),
        spec_patch(t1, end, r.start).len() == t1.len(),
        forall|q: int| 0 <= q < lo ==> #[trigger] spec_patch(t1, end, r.start)[q] == t[q],
{
    let mid = t.len() as int;
    let hi = t1.len() as int;
    let open = seq![end, r.end];
    assert forall|q: int| lo <= q < hi implies match #[trigger] t1[q] {
        StateModel::Empty { next } => open.contains(q as u32) || lo <= next < hi,
        StateModel::Range { next, .. } => open.contains(q as u32) || lo <= next < hi,
        StateModel::Union { alternates, .. } => forall|k: int|
            0 <= k < alternates.len() ==> lo <= #[trigger] alternates[k] < hi,
        StateModel::Match => false,
    } by {
        if q < mid {
            assert(t1[q] == t[q]);
            if seq![end].contains(q as u32) {
                let k = choose|k: int| 0 <= k < 1 && seq![end][k] == q as u32;
                assert(open[0] == q as u32);
            }
            match t[q] {
                StateModel::Union { alternates, .. } => {
                    assert forall|k: int| 0 <= k < alternates.len() implies lo
                        <= #[trigger] alternates[k] < hi by {
                        assert(lo <= alternates[k] < mid);
                    }
                },
                _ => {},
            }
        } else {
            if seq![r.end].contains(q as u32) {
                let k = choose|k: int| 0 <= k < 1 && seq![r.end][k] == q as u32;
                assert(open[1] == q as u32);
            }
            match t1[q] {
                StateModel::Union { alternates, .. } => {
                    assert forall|k: int| 0 <= k < alternates.len() implies lo
                        <= #[trigger] alternates[k] < hi by {
                        assert(mid <= alternates[k] < hi);
                    }
                },
                _ => {},
            }
        }
    }
    assert forall|q: u32| #[trigger] open.contains(q) && q != end implies seq![r.end].contains(
        q,
    ) by {
        let k = choose|k: int| 0 <= k < 2 && open[k] == q;
        assert(seq![r.end][0] == q);
    }
    lemma_patch_inner(t1, lo, hi, open, end, r.start, seq![r.end]);
}

/// Whether the states of `t` from `lo` on are a chain of fragments with
/// the exit `end`.
pub open spec fn chain(t: Seq<StateModel>, lo: int, end: u32) -> bool {
    &&& 0 <= lo <= end < t.len() <= NFA_MAX_STATES
    &&& inner_ok(t, lo, t.len() as int, seq![end])
}

/// Whether `t1` is `t` with more states behind it, which with the states
/// of `t` from `lo` on are a chain of fragments that begins with `start`
/// and has the exit of `r`. The states below `lo` are as they were.
pub open spec fn grown(
    t: Seq<StateModel>,
    t1: Seq<StateModel>,
    lo: int,
    start: u32,
    r: ThompsonRef,
) -> bool {
    &&& t.len() <= t1.len()
    &&& r.start == start
    &&& chain(t1, lo, r.end)
    &&& forall|q: int| 0 <= q < lo ==> #[trigger] t1[q] == t[q]
}

/// A chain that begins where `t` ends is a fragment behind `t`.
pub proof fn lemma_grown_shape(
    t: Seq<StateModel>,
    mid: Seq<StateModel>,
    t1: Seq<StateModel>,
    r: ThompsonRef,
)
    requires
        grown(mid, t1, t.len() as int, t.len() as u32, r),
        t.len() < mid.len(),
        forall|q: int| 0 <= q < t.len() ==> #[trigger] mid[q] == t[q],
    ensures
        shape(t, t1, r),
{
}

/// States whose transitions stay among them, and further states whose
/// transitions stay among those, are states whose transitions stay among
/// all of them.
pub proof fn lemma_inner_join(
    t: Seq<StateModel>,
    t1: Seq<StateModel>,
    lo: int,
    mid: int,
    hi: int,
    open1: Seq<u32>,
    open2: Seq<u32>,
)
    requires
        0 <= lo <= mid <= hi,
        mid <= t.len(),
        hi <= t1.len(),
        inner_ok(t, lo, mid, open1),
        inner_ok(t1, mid, hi, open2),
        forall|q: int| lo <= q < mid ==> #[trigger] t1[q] == t[q],
    ensures
        inner_ok(t1, lo, hi, open1 + open2),
{
    let open = open1 + open2;
    assert forall|q: int| lo <= q < hi implies match #[trigger] t1[q] {
        StateModel::Empty { next } => open.contains(q as u32) || lo <= next < hi,
        StateModel::Range { next, .. } => open.contains(q as u32) || lo <= next < hi,
        StateModel::Union { alternates, .. } => forall|k: int|
            0 <= k < alternates.len() ==> lo <= #[trigger] alternates[k] < hi,
        StateModel::Match => false,
    } by {
        if q < mid {
            assert(t1[q] == t[q]);
            if open1.contains(q as u32) {
                let k = choose|k: int| 0 <= k < open1.len() && open1[k] == q as u32;
                assert(open[k] == q as u32);
            }
            match t[q] {
                StateModel::Union { alternates, .. } => {
                    assert forall|k: int| 0 <= k < alternates.len() implies lo
                        <= #[trigger] alternates[k] < hi by {
                        assert(lo <= alternates[k] < mid);
                    }
                },
                _ => {},
            }
        } else {
            if open2.contains(q as u32) {
                let k = choose|k: int| 0 <= k < open2.len() && open2[k] == q as u32;
                assert(open[open1.len() + k] == q as u32);
            }
            match t1[q] {
                StateModel::Union { alternates, .. } => {
                    assert forall|k: int| 0 <= k < alternates.len() implies lo
                        <= #[trigger] alternates[k] < hi by {
                        assert(mid <= alternates[k] < hi);
                    }
                },
                _ => {},
            }
        }
    }
}

/// States may be taken for open that are not.
pub proof fn lemma_inner_more(t: Seq<StateModel>, lo: int, hi: int, open: Seq<u32>, more: Seq<u32>)
    requires
        inner_ok(t, lo, hi, open),
        forall|q: u32| #[trigger] open.contains(q) ==> more.contains(q),
    ensures
        inner_ok(t, lo, hi, more),
{
    assert forall|q: int| lo <= q < hi implies match #[trigger] t[q] {
        StateModel::Empty { next } => more.contains(q as u32) || lo <= next < hi,
        StateModel::Range { next, .. } => more.contains(q as u32) || lo <= next < hi,
        StateModel::Union { alternates, .. } => forall|k: int|
            0 <= k < alternates.len() ==> lo <= #[trigger] alternates[k] < hi,
        StateModel::Match => false,
    } by {
        if open.contains(q as u32) {
            assert(more.contains(q as u32));
        }
    }
}

/// A list of one state holds that state alone.
pub proof fn lemma_single(a: u32)
    ensures
        seq![a].contains(a),
        forall|q: u32| #[trigger] seq![a].contains(q) ==> q == a,
{
    assert(seq![a][0] == a);
    assert forall|q: u32| #[trigger] seq![a].contains(q) implies q == a by {
        let k = choose|k: int| 0 <= k < 1 && seq![a][k] == q;
    }
}

/// The chain of byte ranges is a chain of fragments.
pub proof fn lemma_shape_sequence_rest(
    t: Seq<StateModel>,
    ranges: Seq<(u8, u8)>,
    i: int,
    lo: int,
    start: u32,
    end: u32,
)
    requires
        chain(t, lo, end),
        spec_sequence_rest(t, ranges, i, start, end) is Ok,
    ensures
        grown(
            t,
            spec_sequence_rest(t, ranges, i, start, end)->Ok_0.0,
            lo,
            start,
            spec_sequence_rest(t, ranges, i, start, end)->Ok_0.1,
        ),
    decreases ranges.len() - i,
{
    if i < 0 || i >= ranges.len() {
    } else {
        let state = StateModel::Range { start: ranges[i].0, end: ranges[i].1, next: 0 };
        lemma_shape_add(t, state);
        let (t1, r) = spec_range(t, ranges[i])->Ok_0;
        lemma_chain_step(t, lo, end, t1, r);
        let t2 = spec_patch(t1, end, r.start);
        lemma_shape_sequence_rest(t2, ranges, i + 1, lo, start, r.end);
    }
}

/// The fragment of a sequence of byte ranges is a fragment.
pub proof fn lemma_shape_sequence(t: Seq<StateModel>, ranges: Seq<(u8, u8)>)
    requires
        spec_sequence(t, ranges) is Ok,
    ensures
        shape(t, spec_sequence(t, ranges)->Ok_0.0, spec_sequence(t, ranges)->Ok_0.1),
{
    if ranges.len() == 0 {
        lemma_shape_add(t, StateModel::Empty { next: 0 });
    } else {
        let state = StateModel::Range { start: ranges[0].0, end: ranges[0].1, next: 0 };
        lemma_shape_add(t, state);
        let (t1, r) = spec_range(t, ranges[0])->Ok_0;
        lemma_shape_sequence_rest(t1, ranges, 1, t.len() as int, r.start, r.end);
        let (t2, r2) = spec_sequence_rest(t1, ranges, 1, r.start, r.end)->Ok_0;
        lemma_grown_shape(t, t1, t2, r2);
    }
}

/// Whether the states of `t` from `lo` on are a union at `lo` with its
/// branches, whose exits `ends` are still open.
pub open spec fn fan(t: Seq<StateModel>, lo: int, ends: Seq<u32>) -> bool {
    &&& 0 <= lo < t.len() <= NFA_MAX_STATES
    &&& t[lo] is Union
    &&& forall|k: int| 0 <= k < ends.len() ==> lo < #[trigger] ends[k] < t.len()
    &&& inner_ok(t, lo, t.len() as int, ends)
}

/// A branch behind a union with branches, with the union led on to it,
/// makes a union with one more branch.
pub proof fn lemma_fan_step(
    t: Seq<StateModel>,
    lo: int,
    ends: Seq<u32>,
    t1: Seq<StateModel>,
    r: ThompsonRef,
)
    requires
        fan(t, lo, ends),
        shape(t, t1, r),
    ensures
        fan(spec_patch(t1, lo as u32, r.start), lo, ends.push(r.end)),
        spec_patch(t1, lo as u32, r.start).len() == t1.len(),
        forall|q: int| 0 <= q < lo ==> #[trigger] spec_patch(t1, lo as u32, r.start)[q] == t[q],
{
    let mid = t.len() as int;
    let hi = t1.len() as int;
    lemma_inner_join(t, t1, lo, mid, hi, ends, seq![r.end]);
    let open = ends + seq![r.end];
    assert(open =~= ends.push(r.end));
    lemma_patch_inner(t1, lo, hi, open, lo as u32, r.start, open);
    let t2 = spec_patch(t1, lo as u32, r.start);
    assert(t1[lo] == t[lo]);
    assert forall|k: int| 0 <= k < ends.push(r.end).len() implies lo < #[trigger] ends.push(
        r.end,
    )[k] < t2.len() by {
        if k < ends.len() {
            assert(ends.push(r.end)[k] == ends[k]);
        }
    }
}

/// Leading the open exits on to a state of the fragment, one after the
/// other, closes them.
pub proof fn lemma_patch_all_inner(
    t: Seq<StateModel>,
    lo: int,
    hi: int,
    ends: Seq<u32>,
    e: u32,
    open: Seq<u32>,
)
    requires
        0 <= lo <= e < hi <= t.len(),
        hi <= NFA_MAX_STATES,
        forall|k: int| 0 <= k < ends.len() ==> lo <= #[trigger] ends[k] < hi,
        inner_ok(t, lo, hi, ends + open),
    ensures
        inner_ok(spec_patch_all(t, ends, e), lo, hi, open),
        spec_patch_all(t, ends, e).len() == t.len(),
        forall|q: int|
            0 <= q < t.len() && !ends.contains(q as u32) ==> #[trigger] spec_patch_all(t, ends, e)[q]
                == t[q],
    decreases ends.len(),
{
    if ends.len() == 0 {
        assert(ends + open =~= open);
    } else {
        let before = ends.drop_last();
        let last = ends.last();
        assert forall|q: u32| #[trigger] (ends + open).contains(q) implies (before + (seq![last]
            + open)).contains(q) by {
            let k = choose|k: int| 0 <= k < (ends + open).len() && (ends + open)[k] == q;
            assert((before + (seq![last] + open))[k] == q);
        }
        lemma_inner_more(t, lo, hi, ends + open, before + (seq![last] + open));
        assert forall|k: int| 0 <= k < before.len() implies lo <= #[trigger] before[k] < hi by {
            assert(before[k] == ends[k]);
        }
        lemma_patch_all_inner(t, lo, hi, before, e, seq![last] + open);
        let t1 = spec_patch_all(t, before, e);
        assert(lo <= ends[ends.len() - 1] < hi);
        assert forall|q: u32| #[trigger] (seq![last] + open).contains(q) && q != last implies open.contains(
            q,
        ) by {
            let k = choose|k: int|
                0 <= k < (seq![last] + open).len() && (seq![last] + open)[k] == q;
            assert(k > 0);
            assert(open[k - 1] == q);
        }
        lemma_patch_inner(t1, lo, hi, seq![last] + open, last, e, open);
        assert forall|q: int| 0 <= q < t.len() && !ends.contains(q as u32) implies #[trigger] spec_patch_all(
            t,
            ends,
            e,
        )[q] == t[q] by {
            assert(ends[ends.len() - 1] == last);
            assert(ends.contains(last));
            if before.contains(q as u32) {
                let k = choose|k: int| 0 <= k < before.len() && before[k] == q as u32;
                assert(ends[k] == q as u32);
            }
        }
    }
}

/// The join of the branches of a union makes the union and its branches
/// a fragment.
pub proof fn lemma_shape_join(t: Seq<StateModel>, lo: int, ends: Seq<u32>)
    requires
        fan(t, lo, ends),
        spec_join(t, lo as u32, ends) is Ok,
    ensures
        grown(
            t,
            spec_join(t, lo as u32, ends)->Ok_0.0,
            lo,
            lo as u32,
            spec_join(t, lo as u32, ends)->Ok_0.1,
        ),
        spec_join(t, lo as u32, ends)->Ok_0.1.end as int == t.len(),
        spec_join(t, lo as u32, ends)->Ok_0.0.len() == t.len() + 1,
{
    let state = StateModel::Empty { next: 0 };
    lemma_shape_add(t, state);
    let (t1, er) = spec_empty(t)->Ok_0;
    let e = er.start;
    let hi = t1.len() as int;
    lemma_inner_join(t, t1, lo, t.len() as int, hi, ends, seq![e]);
    lemma_patch_all_inner(t1, lo, hi, ends, e, seq![e]);
    let t2 = spec_patch_all(t1, ends, e);
    assert forall|q: int| 0 <= q < lo implies #[trigger] t2[q] == t[q] by {
        if ends.contains(q as u32) {
            let k = choose|k: int| 0 <= k < ends.len() && ends[k] == q as u32;
        }
        assert(t2[q] == t1[q]);
    }
}

/// The branches of an alternation of sequences of byte ranges and their
/// join make a fragment with the union.
pub proof fn lemma_shape_sequences_rest(
    t: Seq<StateModel>,
    seqs: Seq<Seq<(u8, u8)>>,
    i: int,
    lo: int,
    ends: Seq<u32>,
)
    requires
        fan(t, lo, ends),
        spec_sequences_rest(t, seqs, i, lo as u32, ends) is Ok,
    ensures
        grown(
            t,
            spec_sequences_rest(t, seqs, i, lo as u32, ends)->Ok_0.0,
            lo,
            lo as u32,
            spec_sequences_rest(t, seqs, i, lo as u32, ends)->Ok_0.1,
        ),
    decreases seqs.len() - i,
{
    if i < 0 || i >= seqs.len() {
        lemma_shape_join(t, lo, ends);
    } else {
        lemma_shape_sequence(t, seqs[i]);
        let (t1, r) = spec_sequence(t, seqs[i])->Ok_0;
        lemma_fan_step(t, lo, ends, t1, r);
        let t2 = spec_patch(t1, lo as u32, r.start);
        lemma_shape_sequences_rest(t2, seqs, i + 1, lo, ends.push(r.end));
    }
}

/// The fragment of an alternation of sequences of byte ranges is a
/// fragment.
pub proof fn lemma_shape_sequences(t: Seq<StateModel>, seqs: Seq<Seq<(u8, u8)>>)
    requires
        spec_sequences(t, seqs) is Ok,
    ensures
        shape(t, spec_sequences(t, seqs)->Ok_0.0, spec_sequences(t, seqs)->Ok_0.1),
{
    let state = StateModel::Union { alternates: Seq::empty(), reverse: false };
    lemma_shape_add(t, state);
    let (t1, u) = spec_union(t, true)->Ok_0;
    let none = Seq::<u32>::empty();
    lemma_single(u.end);
    assert forall|q: int| t.len() <= q < t1.len() implies match #[trigger] t1[q] {
        StateModel::Empty { next } => none.contains(q as u32) || t.len() <= next < t1.len(),
        StateModel::Range { next, .. } => none.contains(q as u32) || t.len() <= next < t1.len(),
        StateModel::Union { alternates, .. } => forall|k: int|
            0 <= k < alternates.len() ==> t.len() <= #[trigger] alternates[k] < t1.len(),
        StateModel::Match => false,
    } by {}
    lemma_shape_sequences_rest(t1, seqs, 0, t.len() as int, none);
    let (t2, r2) = spec_sequences_rest(t1, seqs, 0, u.start, none)->Ok_0;
    lemma_grown_shape(t, t1, t2, r2);
}

/// A fragment is a chain of one fragment.
pub proof fn lemma_shape_chain(t: Seq<StateModel>, t1: Seq<StateModel>, r: ThompsonRef)
    requires
        shape(t, t1, r),
    ensures
        chain(t1, t.len() as int, r.end),
{
}

/// The fragment of an expression is a fragment.
pub proof fn lemma_shape_compile(t: Seq<StateModel>, e: Hir)
    requires
        spec_compile(t, e) is Ok,
    ensures
        shape(t, spec_compile(t, e)->Ok_0.0, spec_compile(t, e)->Ok_0.1),
    decreases e, 0nat, 0nat,
{
    match e {
        Hir::Empty => {
            lemma_shape_add(t, StateModel::Empty { next: 0 });
        },
        Hir::Literal(Literal::Unicode(c)) => {
            lemma_shape_sequence(t, literal_ranges(c));
        },
        Hir::Literal(Literal::Byte(b)) => {
            lemma_shape_add(t, StateModel::Range { start: b, end: b, next: 0 });
        },
        Hir::Class(Class::Bytes(ranges)) => {
            lemma_shape_sequences(t, byte_class_sequences(ranges@));
        },
        Hir::Class(Class::Unicode(ranges)) => {
            lemma_shape_sequences(t, class_sequences(ranges@));
        },
        Hir::Repetition(rep) => {
            lemma_shape_repetition(t, rep);
        },
        Hir::Group(inner) => {
            lemma_shape_compile(t, *inner);
        },
        Hir::Concat(exprs) => {
            lemma_shape_concat(t, exprs@);
        },
        Hir::Alternation(exprs) => {
            lemma_shape_alternation(t, exprs@);
        },
        Hir::Anchor => {},
        Hir::WordBoundary => {},
    }
}

/// The fragment of a repetition is a fragment.
pub proof fn lemma_shape_repetition(t: Seq<StateModel>, rep: Repetition)
    requires
        spec_repetition(t, rep) is Ok,
    ensures
        shape(t, spec_repetition(t, rep)->Ok_0.0, spec_repetition(t, rep)->Ok_0.1),
    decreases rep, 0nat, 0nat,
{
    match rep.kind {
        RepetitionKind::ZeroOrOne => {
            lemma_shape_zero_or_one(t, *rep.hir, rep.greedy);
        },
        RepetitionKind::ZeroOrMore => {
            lemma_shape_at_least(t, *rep.hir, rep.greedy, 0);
        },
        RepetitionKind::OneOrMore => {
            lemma_shape_at_least(t, *rep.hir, rep.greedy, 1);
        },
        RepetitionKind::Range(RepetitionRange::Exactly(n)) => {
            lemma_shape_exactly(t, *rep.hir, n as nat);
        },
        RepetitionKind::Range(RepetitionRange::AtLeast(n)) => {
            lemma_shape_at_least(t, *rep.hir, rep.greedy, n as nat);
        },
        RepetitionKind::Range(RepetitionRange::Bounded(min, max)) => {
            lemma_shape_bounded(t, *rep.hir, rep.greedy, min as nat, max as nat);
        },
    }
}

/// The chain of the fragments of expressions is a chain of fragments.
pub proof fn lemma_shape_concat_rest(
    t: Seq<StateModel>,
    exprs: Seq<Hir>,
    i: int,
    lo: int,
    start: u32,
    end: u32,
)
    requires
        chain(t, lo, end),
        spec_concat_rest(t, exprs, i, start, end) is Ok,
    ensures
        grown(
            t,
            spec_concat_rest(t, exprs, i, start, end)->Ok_0.0,
            lo,
            start,
            spec_concat_rest(t, exprs, i, start, end)->Ok_0.1,
        ),
    decreases exprs, exprs.len() - i, 0nat,
{
    if i < 0 || i >= exprs.len() {
    } else {
        lemma_shape_compile(t, exprs[i]);
        let (t1, r) = spec_compile(t, exprs[i])->Ok_0;
        lemma_chain_step(t, lo, end, t1, r);
        let t2 = spec_patch(t1, end, r.start);
        lemma_shape_concat_rest(t2, exprs, i + 1, lo, start, r.end);
    }
}

/// The fragment of a concatenation is a fragment.
pub proof fn lemma_shape_concat(t: Seq<StateModel>, exprs: Seq<Hir>)
    requires
        spec_concat(t, exprs) is Ok,
    ensures
        shape(t, spec_concat(t, exprs)->Ok_0.0, spec_concat(t, exprs)->Ok_0.1),
    decreases exprs, exprs.len() + 1, 0nat,
{
    if exprs.len() == 0 {
        lemma_shape_add(t, StateModel::Empty { next: 0 });
    } else {
        lemma_shape_compile(t, exprs[0]);
        let (t1, r) = spec_compile(t, exprs[0])->Ok_0;
        lemma_shape_concat_rest(t1, exprs, 1, t.len() as int, r.start, r.end);
        let (t2, r2) = spec_concat_rest(t1, exprs, 1, r.start, r.end)->Ok_0;
        lemma_grown_shape(t, t1, t2, r2);
    }
}

/// The branches of an alternation and their join make a fragment with
/// the union.
pub proof fn lemma_shape_alternation_rest(
    t: Seq<StateModel>,
    exprs: Seq<Hir>,
    i: int,
    lo: int,
    ends: Seq<u32>,
)
    requires
        fan(t, lo, ends),
        spec_alternation_rest(t, exprs, i, lo as u32, ends) is Ok,
    ensures
        grown(
            t,
            spec_alternation_rest(t, exprs, i, lo as u32, ends)->Ok_0.0,
            lo,
            lo as u32,
            spec_alternation_rest(t, exprs, i, lo as u32, ends)->Ok_0.1,
        ),
    decreases exprs, exprs.len() - i, 0nat,
{
    if i < 0 || i >= exprs.len() {
        lemma_shape_join(t, lo, ends);
    } else {
        lemma_shape_compile(t, exprs[i]);
        let (t1, r) = spec_compile(t, exprs[i])->Ok_0;
        lemma_fan_step(t, lo, ends, t1, r);
        let t2 = spec_patch(t1, lo as u32, r.start);
        lemma_shape_alternation_rest(t2, exprs, i + 1, lo, ends.push(r.end));
    }
}

/// A union without alternates is a union with no branches yet.
pub proof fn lemma_fan_start(t: Seq<StateModel>, greedy: bool)
    requires
        spec_union(t, greedy) is Ok,
    ensures
        fan(spec_union(t, greedy)->Ok_0.0, t.len() as int, Seq::<u32>::empty()),
        shape(t, spec_union(t, greedy)->Ok_0.0, spec_union(t, greedy)->Ok_0.1),
{
    let state = StateModel::Union { alternates: Seq::empty(), reverse: !greedy };
    lemma_shape_add(t, state);
    let (t1, u) = spec_union(t, greedy)->Ok_0;
    let none = Seq::<u32>::empty();
    assert forall|q: int| t.len() <= q < t1.len() implies match #[trigger] t1[q] {
        StateModel::Empty { next } => none.contains(q as u32) || t.len() <= next < t1.len(),
        StateModel::Range { next, .. } => none.contains(q as u32) || t.len() <= next < t1.len(),
        StateModel::Union { alternates, .. } => forall|k: int|
            0 <= k < alternates.len() ==> t.len() <= #[trigger] alternates[k] < t1.len(),
        StateModel::Match => false,
    } by {}
}

/// The fragment of an alternation is a fragment.
pub proof fn lemma_shape_alternation(t: Seq<StateModel>, exprs: Seq<Hir>)
    requires
        spec_alternation(t, exprs) is Ok,
    ensures
        shape(t, spec_alternation(t, exprs)->Ok_0.0, spec_alternation(t, exprs)->Ok_0.1),
    decreases exprs, exprs.len() + 1, 0nat,
{
    lemma_fan_start(t, true);
    let (t1, u) = spec_union(t, true)->Ok_0;
    let none = Seq::<u32>::empty();
    lemma_shape_alternation_rest(t1, exprs, 0, t.len() as int, none);
    let (t2, r2) = spec_alternation_rest(t1, exprs, 0, u.start, none)->Ok_0;
    lemma_grown_shape(t, t1, t2, r2);
}

/// The chain of copies of a fragment is a chain of fragments.
pub proof fn lemma_shape_copies_rest(
    t: Seq<StateModel>,
    e: Hir,
    left: nat,
    lo: int,
    start: u32,
    end: u32,
)
    requires
        chain(t, lo, end),
        spec_copies_rest(t, e, left, start, end) is Ok,
    ensures
        grown(
            t,
            spec_copies_rest(t, e, left, start, end)->Ok_0.0,
            lo,
            start,
            spec_copies_rest(t, e, left, start, end)->Ok_0.1,
        ),
    decreases e, 1nat, left,
{
    if left > 0 {
        lemma_shape_compile(t, e);
        let (t1, r) = spec_compile(t, e)->Ok_0;
        lemma_chain_step(t, lo, end, t1, r);
        let t2 = spec_patch(t1, end, r.start);
        lemma_shape_copies_rest(t2, e, (left - 1) as nat, lo, start, r.end);
    }
}

/// The fragment of an exact repetition is a fragment.
pub proof fn lemma_shape_exactly(t: Seq<StateModel>, e: Hir, n: nat)
    requires
        spec_exactly(t, e, n) is Ok,
    ensures
        shape(t, spec_exactly(t, e, n)->Ok_0.0, spec_exactly(t, e, n)->Ok_0.1),
    decreases e, 2nat, n,
{
    if n == 0 {
        lemma_shape_add(t, StateModel::Empty { next: 0 });
    } else {
        lemma_shape_compile(t, e);
        let (t1, r) = spec_compile(t, e)->Ok_0;
        lemma_shape_copies_rest(t1, e, (n - 1) as nat, t.len() as int, r.start, r.end);
        let (t2, r2) = spec_copies_rest(t1, e, (n - 1) as nat, r.start, r.end)->Ok_0;
        lemma_grown_shape(t, t1, t2, r2);
    }
}

/// The fragment of an optional expression is a fragment.
pub proof fn lemma_shape_zero_or_one(t: Seq<StateModel>, e: Hir, greedy: bool)
    requires
        spec_zero_or_one(t, e, greedy) is Ok,
    ensures
        shape(t, spec_zero_or_one(t, e, greedy)->Ok_0.0, spec_zero_or_one(t, e, greedy)->Ok_0.1),
    decreases e, 1nat, 0nat,
{
    let lo = t.len() as int;
    lemma_fan_start(t, greedy);
    let (t1, u) = spec_union(t, greedy)->Ok_0;
    lemma_shape_compile(t1, e);
    let (t2, r) = spec_compile(t1, e)->Ok_0;
    lemma_shape_add(t2, StateModel::Empty { next: 0 });
    let (t3, x) = spec_empty(t2)->Ok_0;
    let none = Seq::<u32>::empty();
    lemma_inner_join(t1, t2, lo, t1.len() as int, t2.len() as int, none, seq![r.end]);
    lemma_inner_join(t2, t3, lo, t2.len() as int, t3.len() as int, none + seq![r.end], seq![x.end]);
    let open = (none + seq![r.end]) + seq![x.end];
    let hi = t3.len() as int;
    lemma_patch_inner(t3, lo, hi, open, u.start, r.start, open);
    let t4 = spec_patch(t3, u.start, r.start);
    lemma_patch_inner(t4, lo, hi, open, u.start, x.start, open);
    let t5 = spec_patch(t4, u.start, x.start);
    assert forall|q: u32| #[trigger] open.contains(q) && q != r.end implies seq![x.start].contains(
        q,
    ) by {
        let k = choose|k: int| 0 <= k < open.len() && open[k] == q;
        assert(seq![x.start][0] == q);
    }
    lemma_patch_inner(t5, lo, hi, open, r.end, x.start, seq![x.start]);
}

/// The chain of optional copies of a fragment is a chain of fragments.
pub proof fn lemma_shape_optionals_rest(
    t: Seq<StateModel>,
    e: Hir,
    greedy: bool,
    left: nat,
    lo: int,
    start: u32,
    end: u32,
)
    requires
        chain(t, lo, end),
        spec_optionals_rest(t, e, greedy, left, start, end) is Ok,
    ensures
        grown(
            t,
            spec_optionals_rest(t, e, greedy, left, start, end)->Ok_0.0,
            lo,
            start,
            spec_optionals_rest(t, e, greedy, left, start, end)->Ok_0.1,
        ),
    decreases e, 2nat, left,
{
    if left > 0 {
        lemma_shape_zero_or_one(t, e, greedy);
        let (t1, r) = spec_zero_or_one(t, e, greedy)->Ok_0;
        lemma_chain_step(t, lo, end, t1, r);
        let t2 = spec_patch(t1, end, r.start);
        lemma_shape_optionals_rest(t2, e, greedy, (left - 1) as nat, lo, start, r.end);
    }
}

/// The fragment of optional copies in a row is a fragment.
pub proof fn lemma_shape_optionals(t: Seq<StateModel>, e: Hir, greedy: bool, count: nat)
    requires
        spec_optionals(t, e, greedy, count) is Ok,
    ensures
        shape(
            t,
            spec_optionals(t, e, greedy, count)->Ok_0.0,
            spec_optionals(t, e, greedy, count)->Ok_0.1,
        ),
    decreases e, 3nat, count,
{
    if count == 0 {
        lemma_shape_add(t, StateModel::Empty { next: 0 });
    } else {
        lemma_shape_zero_or_one(t, e, greedy);
        let (t1, r) = spec_zero_or_one(t, e, greedy)->Ok_0;
        lemma_shape_optionals_rest(t1, e, greedy, (count - 1) as nat, t.len() as int, r.start, r.end);
        let (t2, r2) = spec_optionals_rest(t1, e, greedy, (count - 1) as nat, r.start, r.end)->Ok_0;
        lemma_grown_shape(t, t1, t2, r2);
    }
}

/// The fragment of a bounded repetition is a fragment.
pub proof fn lemma_shape_bounded(t: Seq<StateModel>, e: Hir, greedy: bool, min: nat, max: nat)
    requires
        spec_bounded(t, e, greedy, min, max) is Ok,
    ensures
        shape(
            t,
            spec_bounded(t, e, greedy, min, max)->Ok_0.0,
            spec_bounded(t, e, greedy, min, max)->Ok_0.1,
        ),
    decreases e, 4nat, 0nat,
{
    lemma_shape_exactly(t, e, min);
    let (t1, prefix) = spec_exactly(t, e, min)->Ok_0;
    if min != max {
        let count = if max > min {
            (max - min) as nat
        } else {
            0
        };
        lemma_shape_optionals(t1, e, greedy, count);
        let (t2, suffix) = spec_optionals(t1, e, greedy, count)->Ok_0;
        lemma_chain_step(t1, t.len() as int, prefix.end, t2, suffix);
    }
}

/// The fragment of a repetition without an upper bound is a fragment.
pub proof fn lemma_shape_at_least(t: Seq<StateModel>, e: Hir, greedy: bool, n: nat)
    requires
        spec_at_least(t, e, greedy, n) is Ok,
    ensures
        shape(
            t,
            spec_at_least(t, e, greedy, n)->Ok_0.0,
            spec_at_least(t, e, greedy, n)->Ok_0.1,
        ),
    decreases e, 3nat, 0nat,
{
    let lo = t.len() as int;
    let none = Seq::<u32>::empty();
    if n == 0 {
        lemma_fan_start(t, greedy);
        let (t1, u) = spec_union(t, greedy)->Ok_0;
        lemma_shape_compile(t1, e);
        let (t2, r) = spec_compile(t1, e)->Ok_0;
        let hi = t2.len() as int;
        lemma_inner_join(t1, t2, lo, t1.len() as int, hi, none, seq![r.end]);
        let open = none + seq![r.end];
        lemma_patch_inner(t2, lo, hi, open, u.start, r.start, open);
        let t3 = spec_patch(t2, u.start, r.start);
        assert forall|q: u32| #[trigger] open.contains(q) && q != r.end implies seq![
            u.start,
        ].contains(q) by {
            let k = choose|k: int| 0 <= k < open.len() && open[k] == q;
        }
        lemma_patch_inner(t3, lo, hi, open, r.end, u.start, seq![u.start]);
    } else if n == 1 {
        lemma_shape_compile(t, e);
        let (t1, r) = spec_compile(t, e)->Ok_0;
        lemma_fan_start(t1, greedy);
        let (t2, u) = spec_union(t1, greedy)->Ok_0;
        let hi = t2.len() as int;
        lemma_inner_join(t1, t2, lo, t1.len() as int, hi, seq![r.end], none);
        let open = seq![r.end] + none;
        assert forall|q: u32| #[trigger] open.contains(q) && q != r.end implies seq![
            u.start,
        ].contains(q) by {
            let k = choose|k: int| 0 <= k < open.len() && open[k] == q;
        }
        lemma_patch_inner(t2, lo, hi, open, r.end, u.start, seq![u.start]);
        let t3 = spec_patch(t2, r.end, u.start);
        lemma_patch_inner(t3, lo, hi, seq![u.start], u.start, r.start, seq![u.start]);
    } else {
        lemma_shape_exactly(t, e, (n - 1) as nat);
        let (t1, prefix) = spec_exactly(t, e, (n - 1) as nat)->Ok_0;
        lemma_shape_compile(t1, e);
        let (t2, last) = spec_compile(t1, e)->Ok_0;
        lemma_fan_start(t2, greedy);
        let (t3, u) = spec_union(t2, greedy)->Ok_0;
        let hi = t3.len() as int;
        lemma_inner_join(t1, t2, lo, t1.len() as int, t2.len() as int, seq![prefix.end], seq![last.end]);
        lemma_inner_join(t2, t3, lo, t2.len() as int, hi, seq![prefix.end] + seq![last.end], none);
        let open = (seq![prefix.end] + seq![last.end]) + none;
        assert(open =~= seq![prefix.end, last.end]);
        lemma_single(last.end);
        assert forall|q: u32| #[trigger] open.contains(q) && q != prefix.end implies seq![
            last.end,
        ].contains(q) by {
            let k = choose|k: int| 0 <= k < open.len() && open[k] == q;
        }
        lemma_patch_inner(t3, lo, hi, open, prefix.end, last.start, seq![last.end]);
        let t4 = spec_patch(t3, prefix.end, last.start);
        assert forall|q: u32| #[trigger] seq![last.end].contains(q) && q != last.end implies seq![
            u.start,
        ].contains(q) by {}
        lemma_patch_inner(t4, lo, hi, seq![last.end], last.end, u.start, seq![u.start]);
        let t5 = spec_patch(t4, last.end, u.start);
        lemma_patch_inner(t5, lo, hi, seq![u.start], u.start, last.start, seq![u.start]);
    }
}

/// At a state that is not among the states of a walk, a walk of no
/// transitions is the only one.
pub proof fn lemma_walk_ends(t: Seq<StateModel>, x: u32, s: Seq<u8>, lo: int, hi: int, n: nat)
    requires
        walk(t, x, x, s, lo, hi, n),
        !(lo <= x < hi),
    ensures
        n == 0,
        s.len() == 0,
{
}

/// What leads to a state that reads nothing and leads on to `x` is read
/// by the walks across that state: nothing.
pub proof fn lemma_lang_empty_state(host: Seq<StateModel>, a: u32, x: u32, s: Seq<u8>, hi: int)
    requires
        a < hi <= host.len(),
        host[a as int] == (StateModel::Empty { next: x }),
        !(a <= x < hi),
    ensures
        walks(host, a, x, s, a as int, hi) <==> s.len() == 0,
{
    let lo = a as int;
    if walks(host, a, x, s, lo, hi) {
        let n = choose|n: nat| walk(host, a, x, s, lo, hi, n);
        assert(n > 0);
        let k = (n - 1) as nat;
        if exists|c: u32| eps_edge(host, a, c) && walk(host, c, x, s, lo, hi, k) {
            let c = choose|c: u32| eps_edge(host, a, c) && walk(host, c, x, s, lo, hi, k);
            lemma_walk_ends(host, x, s, lo, hi, k);
        }
    }
    if s.len() == 0 {
        assert(eps_edge(host, a, x) && walk(host, x, x, s, lo, hi, 0));
        assert(walk(host, a, x, s, lo, hi, 1));
    }
}

/// The walks across a state that reads a byte and leads on to `x` read
/// one byte of its range.
pub proof fn lemma_lang_range_state(
    host: Seq<StateModel>,
    a: u32,
    x: u32,
    s: Seq<u8>,
    hi: int,
    range: (u8, u8),
)
    requires
        a < hi <= host.len(),
        host[a as int] == (StateModel::Range { start: range.0, end: range.1, next: x }),
        !(a <= x < hi),
    ensures
        walks(host, a, x, s, a as int, hi) <==> s.len() == 1 && range.0 <= s[0] <= range.1,
{
    let lo = a as int;
    if walks(host, a, x, s, lo, hi) {
        let n = choose|n: nat| walk(host, a, x, s, lo, hi, n);
        assert(n > 0);
        let k = (n - 1) as nat;
        assert(!(exists|c: u32| eps_edge(host, a, c) && walk(host, c, x, s, lo, hi, k)));
        let c = choose|c: u32| reads(host, a, s[0], c) && walk(host, c, x, s.drop_first(), lo, hi, k);
        lemma_walk_ends(host, x, s.drop_first(), lo, hi, k);
    }
    if s.len() == 1 && range.0 <= s[0] <= range.1 {
        assert(reads(host, a, s[0], x) && walk(host, x, x, s.drop_first(), lo, hi, 0));
        assert(walk(host, a, x, s, lo, hi, 1));
    }
}

/// States confined with a way out, and further states confined with a
/// way out that the first lead to, are confined together.
pub proof fn lemma_confined_join(t: Seq<StateModel>, lo: int, mid: int, hi: int, y: u32, x: u32)
    requires
        lo <= mid <= hi,
        confined(t, lo, mid, y),
        confined(t, mid, hi, x),
        mid <= y < hi || y == x,
    ensures
        confined(t, lo, hi, x),
{
    assert forall|a: u32, c: u32| lo <= a < hi && #[trigger] leads(t, a, c) implies lo <= c < hi
        || c == x by {
        if a < mid {
            assert(lo <= c < mid || c == y);
        } else {
            assert(mid <= c < hi || c == x);
        }
    }
}

/// What hosts a chain of fragments hosts its last fragment: the states
/// of the fragment are those of the table in which the fragment was
/// made.
pub proof fn lemma_hosts_last(
    host: Seq<StateModel>,
    t: Seq<StateModel>,
    end: u32,
    t1: Seq<StateModel>,
    r: ThompsonRef,
    y: u32,
    lo: int,
)
    requires
        0 <= lo <= end < t.len(),
        shape(t, t1, r),
        hosts(host, spec_patch(t1, end, r.start), r.end, y, lo, t1.len() as int),
    ensures
        hosts(host, t1, r.end, y, t.len() as int, t1.len() as int),
        hosts(host, t, end, r.start, lo, t.len() as int),
{
    let t2 = spec_patch(t1, end, r.start);
    assert forall|q: int| t.len() <= q < t1.len() implies #[trigger] host[q] == spec_patch(
        t1,
        r.end,
        y,
    )[q] by {
        assert(host[q] == spec_patch(t2, r.end, y)[q]);
        assert(t2[q] == t1[q]);
    }
    assert forall|q: int| lo <= q < t.len() implies #[trigger] host[q] == spec_patch(
        t,
        end,
        r.start,
    )[q] by {
        assert(host[q] == spec_patch(t2, r.end, y)[q]);
        assert(t1[q] == t[q]);
    }
}

/// Whether `s` has one byte of each range of `ranges` from `i` on.
pub open spec fn in_sequence_from(ranges: Seq<(u8, u8)>, i: int, s: Seq<u8>) -> bool {
    in_sequence(ranges.skip(i), s)
}

/// The rest of a chain of byte ranges reads one byte of each of its
/// ranges.
pub proof fn lemma_lang_sequence_rest(
    t: Seq<StateModel>,
    ranges: Seq<(u8, u8)>,
    i: int,
    lo: int,
    start: u32,
    end: u32,
    host: Seq<StateModel>,
    x: u32,
    s: Seq<u8>,
)
    requires
        1 <= i <= ranges.len(),
        chain(t, lo, end),
        spec_sequence_rest(t, ranges, i, start, end) is Ok,
        hosts(
            host,
            spec_sequence_rest(t, ranges, i, start, end)->Ok_0.0,
            spec_sequence_rest(t, ranges, i, start, end)->Ok_0.1.end,
            x,
            lo,
            spec_sequence_rest(t, ranges, i, start, end)->Ok_0.0.len() as int,
        ),
    ensures
        ({
            let hi = spec_sequence_rest(t, ranges, i, start, end)->Ok_0.0.len() as int;
            let y = if i < ranges.len() {
                t.len() as u32
            } else {
                x
            };
            &&& hosts(host, t, end, y, lo, t.len() as int)
            &&& confined(host, t.len() as int, hi, x)
            &&& t.len() <= y < hi || y == x
            &&& walks(host, y, x, s, t.len() as int, hi) <==> in_sequence_from(ranges, i, s)
        }),
    decreases ranges.len() - i,
{
    let mid = t.len() as int;
    if i >= ranges.len() {
        assert(ranges.skip(i) =~= Seq::<(u8, u8)>::empty());
        if walks(host, x, x, s, mid, mid) {
            let n = choose|n: nat| walk(host, x, x, s, mid, mid, n);
            lemma_walk_ends(host, x, s, mid, mid, n);
        }
        if s.len() == 0 {
            assert(walk(host, x, x, s, mid, mid, 0));
        }
    } else {
        let state = StateModel::Range { start: ranges[i].0, end: ranges[i].1, next: 0 };
        lemma_shape_add(t, state);
        let (t1, r) = spec_range(t, ranges[i])->Ok_0;
        lemma_chain_step(t, lo, end, t1, r);
        let t2 = spec_patch(t1, end, r.start);
        let (t3, r3) = spec_sequence_rest(t2, ranges, i + 1, start, r.end)->Ok_0;
        let hi = t3.len() as int;
        let mid1 = t1.len() as int;
        lemma_shape_sequence_rest(t2, ranges, i + 1, lo, start, r.end);
        let y1 = if i + 1 < ranges.len() {
            mid1 as u32
        } else {
            x
        };
        lemma_lang_sequence_rest(t2, ranges, i + 1, lo, start, r.end, host, x, s);
        lemma_hosts_last(host, t, end, t1, r, y1, lo);
        lemma_hosted_confined(host, t1, r.end, y1, mid, mid1);
        lemma_confined_join(host, mid, mid1, hi, y1, x);
        lemma_compose(host, r.start, y1, x, s, mid, mid1, hi);
        assert(host[mid] == (StateModel::Range { start: ranges[i].0, end: ranges[i].1, next: y1 }));
        assert forall|k: int| 0 <= k <= s.len() implies (#[trigger] walks(
            host,
            r.start,
            y1,
            s.take(k),
            mid,
            mid1,
        ) && walks(host, y1, x, s.skip(k), mid1, hi) <==> k == 1 && ranges[i].0 <= s[0]
            <= ranges[i].1 && in_sequence_from(ranges, i + 1, s.skip(1))) by {
            lemma_lang_range_state(host, r.start, y1, s.take(k), mid1, ranges[i]);
            lemma_lang_sequence_rest(t2, ranges, i + 1, lo, start, r.end, host, x, s.skip(k));
            if k >= 1 {
                assert(s.take(k)[0] == s[0]);
            }
        }
        let here = ranges.skip(i);
        let there = ranges.skip(i + 1);
        assert(there =~= here.drop_first());
        assert(here[0] == ranges[i]);
        if in_sequence(here, s) {
            assert(s.len() >= 1);
            assert forall|k: int| 0 <= k < s.skip(1).len() implies there[k].0 <= #[trigger] s.skip(
                1,
            )[k] <= there[k].1 by {
                assert(s.skip(1)[k] == s[k + 1]);
                assert(here[k + 1].0 <= s[k + 1] <= here[k + 1].1);
            }
            assert(walks(host, r.start, y1, s.take(1), mid, mid1) && walks(
                host,
                y1,
                x,
                s.skip(1),
                mid1,
                hi,
            ));
        }
        if walks(host, r.start, x, s, mid, hi) {
            let k = choose|k: int|
                0 <= k <= s.len() && #[trigger] walks(host, r.start, y1, s.take(k), mid, mid1)
                    && walks(host, y1, x, s.skip(k), mid1, hi);
            assert(k == 1);
            assert forall|j: int| 0 <= j < s.len() implies here[j].0 <= #[trigger] s[j]
                <= here[j].1 by {
                if j > 0 {
                    assert(s.skip(1)[j - 1] == s[j]);
                    assert(there[j - 1].0 <= s.skip(1)[j - 1] <= there[j - 1].1);
                }
            }
        }
    }
}

/// The fragment of a sequence of byte ranges reads one byte of each of
/// its ranges.
pub proof fn lemma_lang_sequence(
    t: Seq<StateModel>,
    ranges: Seq<(u8, u8)>,
    host: Seq<StateModel>,
    x: u32,
    s: Seq<u8>,
)
    requires
        spec_sequence(t, ranges) is Ok,
        hosts(
            host,
            spec_sequence(t, ranges)->Ok_0.0,
            spec_sequence(t, ranges)->Ok_0.1.end,
            x,
            t.len() as int,
            spec_sequence(t, ranges)->Ok_0.0.len() as int,
        ),
    ensures
        walks(
            host,
            spec_sequence(t, ranges)->Ok_0.1.start,
            x,
            s,
            t.len() as int,
            spec_sequence(t, ranges)->Ok_0.0.len() as int,
        ) <==> in_sequence(ranges, s),
{
    let lo = t.len() as int;
    if ranges.len() == 0 {
        lemma_shape_add(t, StateModel::Empty { next: 0 });
        lemma_lang_empty_state(host, lo as u32, x, s, lo + 1);
    } else {
        let state = StateModel::Range { start: ranges[0].0, end: ranges[0].1, next: 0 };
        lemma_shape_add(t, state);
        let (t1, r) = spec_range(t, ranges[0])->Ok_0;
        let (t3, r3) = spec_sequence_rest(t1, ranges, 1, r.start, r.end)->Ok_0;
        let hi = t3.len() as int;
        let mid = t1.len() as int;
        let y = if 1 < ranges.len() {
            mid as u32
        } else {
            x
        };
        lemma_shape_sequence_rest(t1, ranges, 1, lo, r.start, r.end);
        lemma_lang_sequence_rest(t1, ranges, 1, lo, r.start, r.end, host, x, s);
        lemma_hosted_confined(host, t1, r.end, y, lo, mid);
        lemma_compose(host, r.start, y, x, s, lo, mid, hi);
        assert(host[lo] == (StateModel::Range { start: ranges[0].0, end: ranges[0].1, next: y }));
        assert forall|k: int| 0 <= k <= s.len() implies (#[trigger] walks(
            host,
            r.start,
            y,
            s.take(k),
            lo,
            mid,
        ) && walks(host, y, x, s.skip(k), mid, hi) <==> k == 1 && ranges[0].0 <= s[0]
            <= ranges[0].1 && in_sequence_from(ranges, 1, s.skip(1))) by {
            lemma_lang_range_state(host, r.start, y, s.take(k), mid, ranges[0]);
            lemma_lang_sequence_rest(t1, ranges, 1, lo, r.start, r.end, host, x, s.skip(k));
            if k >= 1 {
                assert(s.take(k)[0] == s[0]);
            }
        }
        let there = ranges.skip(1);
        if in_sequence(ranges, s) {
            assert(s.len() >= 1);
            assert forall|k: int| 0 <= k < s.skip(1).len() implies there[k].0 <= #[trigger] s.skip(
                1,
            )[k] <= there[k].1 by {
                assert(s.skip(1)[k] == s[k + 1]);
                assert(ranges[k + 1].0 <= s[k + 1] <= ranges[k + 1].1);
            }
            assert(walks(host, r.start, y, s.take(1), lo, mid) && walks(
                host,
                y,
                x,
                s.skip(1),
                mid,
                hi,
            ));
        }
        if walks(host, r.start, x, s, lo, hi) {
            let k = choose|k: int|
                0 <= k <= s.len() && #[trigger] walks(host, r.start, y, s.take(k), lo, mid)
                    && walks(host, y, x, s.skip(k), mid, hi);
            assert(k == 1);
            assert forall|j: int| 0 <= j < s.len() implies ranges[j].0 <= #[trigger] s[j]
                <= ranges[j].1 by {
                if j > 0 {
                    assert(s.skip(1)[j - 1] == s[j]);
                    assert(there[j - 1].0 <= s.skip(1)[j - 1] <= there[j - 1].1);
                }
            }
        }
    }
}

/// One text of a language is a text of the language.
pub proof fn lemma_power_one(l: Language, s: Seq<u8>)
    ensures
        power_of(l, 1, s) <==> l(s),
{
    reveal_with_fuel(power_of, 2);
    if power_of(l, 1, s) {
        let k = choose|k: int|
            0 <= k <= s.len() && #[trigger] l(s.take(k)) && power_of(l, 0, s.skip(k));
        assert(s.take(k) =~= s);
    }
    if l(s) {
        let k = s.len() as int;
        assert(s.take(k) =~= s);
        assert(l(s.take(k)) && power_of(l, 0, s.skip(k)));
    }
}

/// Texts of `a` and of `b` texts of a language make a text of `a + b`
/// of them.
pub proof fn lemma_power_add(l: Language, a: nat, b: nat, s1: Seq<u8>, s2: Seq<u8>)
    requires
        power_of(l, a, s1),
        power_of(l, b, s2),
    ensures
        power_of(l, a + b, s1 + s2),
    decreases a,
{
    if a == 0 {
        assert(s1 + s2 =~= s2);
    } else {
        let k = choose|k: int|
            0 <= k <= s1.len() && #[trigger] l(s1.take(k)) && power_of(
                l,
                (a - 1) as nat,
                s1.skip(k),
            );
        lemma_power_add(l, (a - 1) as nat, b, s1.skip(k), s2);
        assert((s1 + s2).take(k) =~= s1.take(k));
        assert((s1 + s2).skip(k) =~= s1.skip(k) + s2);
        assert(l((s1 + s2).take(k)) && power_of(l, (a + b - 1) as nat, (s1 + s2).skip(k)));
    }
}

/// A text of `a + b` texts of a language is made of a text of `a` and a
/// text of `b` of them.
pub proof fn lemma_power_split(l: Language, a: nat, b: nat, s: Seq<u8>) -> (k: int)
    requires
        power_of(l, a + b, s),
    ensures
        0 <= k <= s.len(),
        power_of(l, a, s.take(k)),
        power_of(l, b, s.skip(k)),
    decreases a,
{
    if a == 0 {
        assert(s.skip(0) =~= s);
        0
    } else {
        let j = choose|j: int|
            0 <= j <= s.len() && #[trigger] l(s.take(j)) && power_of(
                l,
                (a + b - 1) as nat,
                s.skip(j),
            );
        let rest = s.skip(j);
        let i = lemma_power_split(l, (a - 1) as nat, b, rest);
        let k = j + i;
        assert(s.take(k).take(j) =~= s.take(j));
        assert(s.take(k).skip(j) =~= rest.take(i));
        assert(s.skip(k) =~= rest.skip(i));
        assert(l(s.take(k).take(j)) && power_of(l, (a - 1) as nat, s.take(k).skip(j)));
        k
    }
}

/// Whether the union `u` leads to the entry `c0` of a fragment and to
/// `x`, and to nothing else.
pub open spec fn loops(host: Seq<StateModel>, u: u32, c0: u32, x: u32) -> bool {
    &&& (u as int) < host.len()
    &&& host[u as int] matches StateModel::Union { alternates, .. } && forall|c: u32|
        alternates.contains(c) <==> c == c0 || c == x
}

/// A walk from the union of a loop to the way out reads texts of the
/// language of the loop's fragment, one after the other.
pub proof fn lemma_loop_sound(
    host: Seq<StateModel>,
    u: u32,
    c0: u32,
    x: u32,
    l: Language,
    ilo: int,
    ihi: int,
    lo: int,
    hi: int,
    s: Seq<u8>,
    n: nat,
) -> (m: nat)
    requires
        walk(host, u, x, s, lo, hi, n),
        loops(host, u, c0, x),
        lo <= ilo <= c0 < ihi <= hi,
        lo <= u < hi,
        !(ilo <= u < ihi),
        !(lo <= x < hi),
        confined(host, ilo, ihi, u),
        forall|s1: Seq<u8>| walks(host, c0, u, s1, ilo, ihi) ==> #[trigger] l(s1),
    ensures
        power_of(l, m, s),
    decreases n,
{
    assert(n > 0);
    let k = (n - 1) as nat;
    assert(!(s.len() > 0 && exists|c: u32|
        reads(host, u, s[0], c) && walk(host, c, x, s.drop_first(), lo, hi, k)));
    let c = choose|c: u32| eps_edge(host, u, c) && walk(host, c, x, s, lo, hi, k);
    if c == x {
        lemma_walk_ends(host, x, s, lo, hi, k);
        0
    } else {
        assert(c == c0);
        let (j, n1) = lemma_walk_leaves(host, c0, x, s, lo, hi, ilo, ihi, u, k);
        assert(walks(host, c0, u, s.take(j), ilo, ihi));
        let m = lemma_loop_sound(host, u, c0, x, l, ilo, ihi, lo, hi, s.skip(j), (k - n1) as nat);
        assert(l(s.take(j)) && power_of(l, m, s.skip(j)));
        m + 1
    }
}

/// Texts of the language of a loop's fragment, one after the other, are
/// read by a walk from the union of the loop to the way out.
pub proof fn lemma_loop_complete(
    host: Seq<StateModel>,
    u: u32,
    c0: u32,
    x: u32,
    l: Language,
    ilo: int,
    ihi: int,
    lo: int,
    hi: int,
    s: Seq<u8>,
    m: nat,
)
    requires
        power_of(l, m, s),
        loops(host, u, c0, x),
        lo <= ilo <= c0 < ihi <= hi,
        lo <= u < hi,
        forall|s1: Seq<u8>| #[trigger] l(s1) ==> walks(host, c0, u, s1, ilo, ihi),
    ensures
        walks(host, u, x, s, lo, hi),
    decreases m,
{
    let alternates = host[u as int]->Union_alternates;
    if m == 0 {
        assert(alternates.contains(x));
        assert(eps_edge(host, u, x) && walk(host, x, x, s, lo, hi, 0));
        assert(walk(host, u, x, s, lo, hi, 1));
    } else {
        let j = choose|j: int|
            0 <= j <= s.len() && #[trigger] l(s.take(j)) && power_of(
                l,
                (m - 1) as nat,
                s.skip(j),
            );
        lemma_loop_complete(host, u, c0, x, l, ilo, ihi, lo, hi, s.skip(j), (m - 1) as nat);
        assert(walks(host, c0, u, s.take(j), ilo, ihi));
        let n1 = choose|n1: nat| walk(host, c0, u, s.take(j), ilo, ihi, n1);
        let n2 = choose|n2: nat| walk(host, u, x, s.skip(j), lo, hi, n2);
        lemma_walk_wider(host, c0, u, s.take(j), ilo, ihi, lo, hi, n1);
        lemma_walk_join(host, c0, u, x, s.take(j), s.skip(j), lo, hi, n1, n2);
        assert(s.take(j) + s.skip(j) =~= s);
        assert(alternates.contains(c0));
        assert(eps_edge(host, u, c0) && walk(host, c0, x, s, lo, hi, n1 + n2));
        assert(walk(host, u, x, s, lo, hi, n1 + n2 + 1));
    }
}

/// What a fragment and the states behind it read one after the other:
/// a text of the fragment's language and then one of the language of the
/// states behind it.
pub proof fn lemma_lang_pair(
    host: Seq<StateModel>,
    start: u32,
    y: u32,
    x: u32,
    lo: int,
    mid: int,
    hi: int,
    la: Language,
    lb: Language,
    s: Seq<u8>,
)
    requires
        lo <= start < mid <= hi,
        confined(host, lo, mid, y),
        confined(host, mid, hi, x),
        mid <= y < hi || y == x,
        !(lo <= x < hi),
        forall|s1: Seq<u8>|
            #![trigger la(s1)]
            #![trigger walks(host, start, y, s1, lo, mid)]
            walks(host, start, y, s1, lo, mid) <==> la(s1),
        forall|s2: Seq<u8>|
            #![trigger lb(s2)]
            #![trigger walks(host, y, x, s2, mid, hi)]
            walks(host, y, x, s2, mid, hi) <==> lb(s2),
    ensures
        walks(host, start, x, s, lo, hi) <==> exists|k: int|
            0 <= k <= s.len() && #[trigger] la(s.take(k)) && lb(s.skip(k)),
{
    lemma_compose(host, start, y, x, s, lo, mid, hi);
    if walks(host, start, x, s, lo, hi) {
        let k = choose|k: int|
            0 <= k <= s.len() && #[trigger] walks(host, start, y, s.take(k), lo, mid) && walks(
                host,
                y,
                x,
                s.skip(k),
                mid,
                hi,
            );
        assert(la(s.take(k)) && lb(s.skip(k)));
    }
    if exists|k: int| 0 <= k <= s.len() && #[trigger] la(s.take(k)) && lb(s.skip(k)) {
        let k = choose|k: int| 0 <= k <= s.len() && #[trigger] la(s.take(k)) && lb(s.skip(k));
        assert(walks(host, start, y, s.take(k), lo, mid) && walks(host, y, x, s.skip(k), mid, hi));
    }
}

/// The language of the texts of `l` and the empty text.
pub open spec fn optional(l: Language) -> Language {
    |s: Seq<u8>| s.len() == 0 || l(s)
}

/// The language of the texts that are made of at least one text of `l`.
pub open spec fn repeated(l: Language) -> Language {
    |s: Seq<u8>| at_least_of(l, 1, s)
}

/// Nothing or one text of a language is the empty text or a text of the
/// language.
pub proof fn lemma_between_one(l: Language, s: Seq<u8>)
    ensures
        between_of(l, 0, 1, s) <==> optional(l)(s),
{
    lemma_power_one(l, s);
    if between_of(l, 0, 1, s) {
        let n = choose|n: nat| 0 <= n <= 1 && #[trigger] power_of(l, n, s);
        assert(n == 0 || n == 1);
    }
    if s.len() == 0 {
        assert(power_of(l, 0, s));
    }
    if l(s) {
        assert(power_of(l, 1, s));
    }
}

/// `count` texts of which each is empty or a text of `l` are up to
/// `count` texts of `l`.
pub proof fn lemma_power_optional(l: Language, count: nat, s: Seq<u8>)
    ensures
        power_of(optional(l), count, s) <==> between_of(l, 0, count, s),
    decreases count,
{
    let opt = optional(l);
    if count == 0 {
        if between_of(l, 0, 0, s) {
            let n = choose|n: nat| 0 <= n <= 0 && #[trigger] power_of(l, n, s);
            assert(n == 0);
        }
        if s.len() == 0 {
            assert(power_of(l, 0, s));
        }
    } else {
        let fewer = (count - 1) as nat;
        if power_of(opt, count, s) {
            let k = choose|k: int|
                0 <= k <= s.len() && #[trigger] opt(s.take(k)) && power_of(opt, fewer, s.skip(k));
            lemma_power_optional(l, fewer, s.skip(k));
            let n = choose|n: nat| 0 <= n <= fewer && #[trigger] power_of(l, n, s.skip(k));
            if s.take(k).len() == 0 {
                assert(s.skip(k) =~= s);
                assert(power_of(l, n, s));
            } else {
                assert(l(s.take(k)) && power_of(l, n, s.skip(k)));
                assert(power_of(l, n + 1, s));
            }
        }
        if between_of(l, 0, count, s) {
            let n = choose|n: nat| 0 <= n <= count && #[trigger] power_of(l, n, s);
            if n == 0 {
                assert(s.skip(0) =~= s);
                assert(power_of(l, 0, s.skip(0)));
                lemma_power_optional(l, fewer, s.skip(0));
                assert(opt(s.take(0)) && power_of(opt, fewer, s.skip(0)));
            } else {
                let k = choose|k: int|
                    0 <= k <= s.len() && #[trigger] l(s.take(k)) && power_of(
                        l,
                        (n - 1) as nat,
                        s.skip(k),
                    );
                lemma_power_optional(l, fewer, s.skip(k));
                assert(opt(s.take(k)) && power_of(opt, fewer, s.skip(k)));
            }
        }
    }
}

/// `min` texts of a language and then up to `more` of them are from `min`
/// to `min + more` of them.
pub proof fn lemma_between_split(l: Language, min: nat, more: nat, s: Seq<u8>)
    ensures
        between_of(l, min, min + more, s) <==> exists|k: int|
            0 <= k <= s.len() && #[trigger] power_of(l, min, s.take(k)) && between_of(
                l,
                0,
                more,
                s.skip(k),
            ),
{
    if between_of(l, min, min + more, s) {
        let n = choose|n: nat| min <= n <= min + more && #[trigger] power_of(l, n, s);
        let k = lemma_power_split(l, min, (n - min) as nat, s);
        assert(power_of(l, (n - min) as nat, s.skip(k)));
        assert(power_of(l, min, s.take(k)) && between_of(l, 0, more, s.skip(k)));
    }
    if exists|k: int|
        0 <= k <= s.len() && #[trigger] power_of(l, min, s.take(k)) && between_of(
            l,
            0,
            more,
            s.skip(k),
        ) {
        let k = choose|k: int|
            0 <= k <= s.len() && #[trigger] power_of(l, min, s.take(k)) && between_of(
                l,
                0,
                more,
                s.skip(k),
            );
        let n = choose|n: nat| 0 <= n <= more && #[trigger] power_of(l, n, s.skip(k));
        lemma_power_add(l, min, n, s.take(k), s.skip(k));
        assert(s.take(k) + s.skip(k) =~= s);
        assert(power_of(l, min + n, s));
    }
}

/// `fewer` texts of a language and then at least one of them are at
/// least `fewer + 1` of them.
pub proof fn lemma_at_least_split(l: Language, fewer: nat, s: Seq<u8>)
    ensures
        at_least_of(l, fewer + 1, s) <==> exists|k: int|
            0 <= k <= s.len() && #[trigger] power_of(l, fewer, s.take(k)) && at_least_of(
                l,
                1,
                s.skip(k),
            ),
{
    if at_least_of(l, fewer + 1, s) {
        let n = choose|n: nat| fewer + 1 <= n && #[trigger] power_of(l, n, s);
        let k = lemma_power_split(l, fewer, (n - fewer) as nat, s);
        assert(power_of(l, (n - fewer) as nat, s.skip(k)));
        assert(power_of(l, fewer, s.take(k)) && at_least_of(l, 1, s.skip(k)));
    }
    if exists|k: int|
        0 <= k <= s.len() && #[trigger] power_of(l, fewer, s.take(k)) && at_least_of(
            l,
            1,
            s.skip(k),
        ) {
        let k = choose|k: int|
            0 <= k <= s.len() && #[trigger] power_of(l, fewer, s.take(k)) && at_least_of(
                l,
                1,
                s.skip(k),
            );
        let n = choose|n: nat| 1 <= n && #[trigger] power_of(l, n, s.skip(k));
        lemma_power_add(l, fewer, n, s.take(k), s.skip(k));
        assert(s.take(k) + s.skip(k) =~= s);
        assert(power_of(l, fewer + n, s));
    }
}

/// A union that leads into a fragment and past it reads what the
/// fragment reads, or nothing.
pub proof fn lemma_lang_option(
    host: Seq<StateModel>,
    u: u32,
    c0: u32,
    y: u32,
    l: Language,
    inner: int,
    hi: int,
    s: Seq<u8>,
)
    requires
        inner == u + 1,
        loops(host, u, c0, y),
        u < c0 < hi,
        !(u <= y < hi),
        confined(host, inner, hi, y),
        forall|s1: Seq<u8>|
            #![trigger l(s1)]
            #![trigger walks(host, c0, y, s1, inner, hi)]
            walks(host, c0, y, s1, inner, hi) <==> l(s1),
    ensures
        walks(host, u, y, s, u as int, hi) <==> optional(l)(s),
        confined(host, u as int, hi, y),
{
    let lo = u as int;
    let alternates = host[lo]->Union_alternates;
    if walks(host, u, y, s, lo, hi) {
        let n = choose|n: nat| walk(host, u, y, s, lo, hi, n);
        assert(n > 0);
        let k = (n - 1) as nat;
        assert(!(s.len() > 0 && exists|c: u32|
            reads(host, u, s[0], c) && walk(host, c, y, s.drop_first(), lo, hi, k)));
        let c = choose|c: u32| eps_edge(host, u, c) && walk(host, c, y, s, lo, hi, k);
        if c == y {
            lemma_walk_ends(host, y, s, lo, hi, k);
        } else {
            assert(c == c0);
            lemma_walk_stays(host, c0, y, s, lo, hi, inner, hi, k);
            assert(walks(host, c0, y, s, inner, hi));
        }
    }
    if s.len() == 0 {
        assert(alternates.contains(y));
        assert(eps_edge(host, u, y) && walk(host, y, y, s, lo, hi, 0));
        assert(walk(host, u, y, s, lo, hi, 1));
    }
    if l(s) {
        assert(walks(host, c0, y, s, inner, hi));
        let m = choose|m: nat| walk(host, c0, y, s, inner, hi, m);
        lemma_walk_wider(host, c0, y, s, inner, hi, lo, hi, m);
        assert(alternates.contains(c0));
        assert(eps_edge(host, u, c0) && walk(host, c0, y, s, lo, hi, m));
        assert(walk(host, u, y, s, lo, hi, m + 1));
    }
    assert forall|a: u32, c: u32| lo <= a < hi && #[trigger] leads(host, a, c) implies lo <= c < hi
        || c == y by {
        if a == u {
            assert(alternates.contains(c));
        } else {
            assert(inner <= c < hi || c == y);
        }
    }
}

/// A fragment with a union behind it that leads back into it and on
/// reads what the fragment reads, once or more often.
pub proof fn lemma_lang_plus(
    host: Seq<StateModel>,
    c0: u32,
    u: u32,
    x: u32,
    l: Language,
    lo: int,
    hi: int,
    s: Seq<u8>,
)
    requires
        hi == u + 1,
        loops(host, u, c0, x),
        0 <= lo <= c0 < u,
        !(lo <= x <= u),
        confined(host, lo, u as int, u),
        forall|s1: Seq<u8>|
            #![trigger l(s1)]
            #![trigger walks(host, c0, u, s1, lo, u as int)]
            walks(host, c0, u, s1, lo, u as int) <==> l(s1),
    ensures
        walks(host, c0, x, s, lo, hi) <==> repeated(l)(s),
        confined(host, lo, hi, x),
{
    let mid = u as int;
    let alternates = host[mid]->Union_alternates;
    if walks(host, c0, x, s, lo, hi) {
        let n = choose|n: nat| walk(host, c0, x, s, lo, hi, n);
        let (j, m) = lemma_walk_leaves(host, c0, x, s, lo, hi, lo, mid, u, n);
        assert(walks(host, c0, u, s.take(j), lo, mid));
        let times = lemma_loop_sound(host, u, c0, x, l, lo, mid, lo, hi, s.skip(j), (n - m) as nat);
        assert(l(s.take(j)) && power_of(l, times, s.skip(j)));
        assert(power_of(l, times + 1, s));
    }
    if at_least_of(l, 1, s) {
        let n = choose|n: nat| 1 <= n && #[trigger] power_of(l, n, s);
        let k = choose|k: int|
            0 <= k <= s.len() && #[trigger] l(s.take(k)) && power_of(l, (n - 1) as nat, s.skip(k));
        lemma_loop_complete(host, u, c0, x, l, lo, mid, lo, hi, s.skip(k), (n - 1) as nat);
        assert(walks(host, c0, u, s.take(k), lo, mid));
        let n1 = choose|n1: nat| walk(host, c0, u, s.take(k), lo, mid, n1);
        let n2 = choose|n2: nat| walk(host, u, x, s.skip(k), lo, hi, n2);
        lemma_walk_wider(host, c0, u, s.take(k), lo, mid, lo, hi, n1);
        lemma_walk_join(host, c0, u, x, s.take(k), s.skip(k), lo, hi, n1, n2);
        assert(s.take(k) + s.skip(k) =~= s);
    }
    assert forall|a: u32, c: u32| lo <= a < hi && #[trigger] leads(host, a, c) implies lo <= c < hi
        || c == x by {
        if a == u {
            assert(alternates.contains(c));
        } else {
            assert(lo <= c < mid || c == u);
        }
    }
}

/// A union that was led on to two states leads to these two and to no
/// other.
pub proof fn lemma_two_alternates(reverse: bool, a: u32, b: u32)
    ensures
        patched(patched(StateModel::Union { alternates: Seq::empty(), reverse }, a), b) is Union,
        forall|c: u32|
            (#[trigger] patched(
                patched(StateModel::Union { alternates: Seq::empty(), reverse }, a),
                b,
            )->Union_alternates.contains(c)) <==> c == a || c == b,
{
    let alternates = patched(
        patched(StateModel::Union { alternates: Seq::empty(), reverse }, a),
        b,
    )->Union_alternates;
    if reverse {
        assert(alternates =~= seq![b, a]);
        assert(alternates[0] == b && alternates[1] == a);
    } else {
        assert(alternates =~= seq![a, b]);
        assert(alternates[0] == a && alternates[1] == b);
    }
    assert forall|c: u32| #[trigger] alternates.contains(c) implies c == a || c == b by {
        let k = choose|k: int| 0 <= k < alternates.len() && alternates[k] == c;
    }
}

/// A fragment whose exit leads to an empty state reads, up to the way
/// on from that state, what it reads up to the state.
pub proof fn lemma_lang_then_empty(
    host: Seq<StateModel>,
    start: u32,
    join: u32,
    x: u32,
    lo: int,
    hi: int,
    l: Language,
    s: Seq<u8>,
)
    requires
        lo <= start < join,
        hi == join + 1,
        hi <= host.len(),
        host[join as int] == (StateModel::Empty { next: x }),
        !(lo <= x < hi),
        confined(host, lo, join as int, join),
        forall|s1: Seq<u8>|
            #![trigger l(s1)]
            #![trigger walks(host, start, join, s1, lo, join as int)]
            walks(host, start, join, s1, lo, join as int) <==> l(s1),
    ensures
        walks(host, start, x, s, lo, hi) <==> l(s),
        confined(host, lo, hi, x),
{
    let mid = join as int;
    let nothing = |s2: Seq<u8>| s2.len() == 0;
    assert forall|a: u32, c: u32| mid <= a < hi && #[trigger] leads(host, a, c) implies mid <= c
        < hi || c == x by {}
    assert forall|s2: Seq<u8>|
        #![trigger nothing(s2)]
        #![trigger walks(host, join, x, s2, mid, hi)]
        walks(host, join, x, s2, mid, hi) <==> nothing(s2) by {
        lemma_lang_empty_state(host, join, x, s2, hi);
    }
    lemma_lang_pair(host, start, join, x, lo, mid, hi, l, nothing, s);
    lemma_confined_join(host, lo, mid, hi, join, x);
    if walks(host, start, x, s, lo, hi) {
        let k = choose|k: int| 0 <= k <= s.len() && #[trigger] l(s.take(k)) && nothing(s.skip(k));
        assert(s.take(k) =~= s);
    }
    if l(s) {
        let k = s.len() as int;
        assert(s.take(k) =~= s);
        assert(l(s.take(k)) && nothing(s.skip(k)));
    }
}

/// Whether no state stands twice in `ends`.
pub open spec fn apart(ends: Seq<u32>) -> bool {
    forall|j: int, k: int| 0 <= j < k < ends.len() ==> ends[j] != ends[k]
}

/// The texts of `la` and those of `lb`.
pub open spec fn either(la: Language, lb: Language) -> Language {
    |s: Seq<u8>| la(s) || lb(s)
}

/// The language without a text.
pub open spec fn nothing() -> Language {
    |s: Seq<u8>| false
}

/// A union that is led on to a further state leads to that state and to
/// those it led to.
pub proof fn lemma_patched_alternates(state: StateModel, to: u32)
    requires
        state is Union,
    ensures
        patched(state, to) is Union,
        forall|c: u32|
            (#[trigger] patched(state, to)->Union_alternates.contains(c))
                <==> state->Union_alternates.contains(c) || c == to,
{
    let was = state->Union_alternates;
    let now = patched(state, to)->Union_alternates;
    let reverse = state->Union_reverse;
    assert forall|c: u32| #[trigger] now.contains(c) implies was.contains(c) || c == to by {
        let k = choose|k: int| 0 <= k < now.len() && now[k] == c;
        if reverse {
            if k > 0 {
                assert(was[k - 1] == c);
            }
        } else {
            if k < was.len() {
                assert(was[k] == c);
            }
        }
    }
    assert forall|c: u32| was.contains(c) || c == to implies #[trigger] now.contains(c) by {
        if was.contains(c) {
            let k = choose|k: int| 0 <= k < was.len() && was[k] == c;
            if reverse {
                assert(now[k + 1] == c);
            } else {
                assert(now[k] == c);
            }
        } else {
            if reverse {
                assert(now[0] == c);
            } else {
                assert(now[was.len() as int] == c);
            }
        }
    }
}

/// Leading states on of which none stands twice leads each of them on
/// once and leaves the others as they were.
pub proof fn lemma_patch_all_each(t: Seq<StateModel>, ends: Seq<u32>, to: u32)
    requires
        apart(ends),
        t.len() <= NFA_MAX_STATES,
        forall|k: int| 0 <= k < ends.len() ==> #[trigger] ends[k] < t.len(),
    ensures
        spec_patch_all(t, ends, to).len() == t.len(),
        forall|q: int|
            0 <= q < t.len() ==> #[trigger] spec_patch_all(t, ends, to)[q] == (if ends.contains(
                q as u32,
            ) {
                patched(t[q], to)
            } else {
                t[q]
            }),
    decreases ends.len(),
{
    if ends.len() > 0 {
        let before = ends.drop_last();
        let last = ends.last();
        assert forall|k: int| 0 <= k < before.len() implies #[trigger] before[k] < t.len() by {
            assert(before[k] == ends[k]);
        }
        assert forall|j: int, k: int| 0 <= j < k < before.len() implies before[j] != before[k] by {
            assert(before[j] == ends[j] && before[k] == ends[k]);
        }
        lemma_patch_all_each(t, before, to);
        let t1 = spec_patch_all(t, before, to);
        assert(ends[ends.len() - 1] == last);
        assert(last < t.len());
        assert forall|q: int| 0 <= q < t.len() implies #[trigger] spec_patch_all(t, ends, to)[q]
            == (if ends.contains(q as u32) {
            patched(t[q], to)
        } else {
            t[q]
        }) by {
            let n = ends.len() - 1;
            if before.contains(q as u32) {
                let k = choose|k: int| 0 <= k < before.len() && before[k] == q as u32;
                assert(before[k] == ends[k]);
                assert(ends[k] != ends[n]);
                assert(ends.contains(q as u32));
            }
            if q == last {
                assert(ends.contains(q as u32));
            } else if ends.contains(q as u32) {
                let k = choose|k: int| 0 <= k < ends.len() && ends[k] == q as u32;
                assert(k != n);
                assert(before[k] == ends[k]);
                assert(before.contains(q as u32));
            }
        }
    }
}

/// Whether `host` holds the union at `lo` of the table `t`, the branches
/// of `t` with their exits `ends` led on to the state `join`, and behind
/// the states of `t` further branches up to `join`, which read the texts
/// of `l`.
pub open spec fn branched(
    host: Seq<StateModel>,
    t: Seq<StateModel>,
    lo: int,
    ends: Seq<u32>,
    join: u32,
    l: Language,
) -> bool {
    let was = t[lo]->Union_alternates;
    let now = host[lo]->Union_alternates;
    &&& t.len() <= join < host.len()
    &&& host[lo] is Union
    &&& forall|q: int|
        lo < q < t.len() ==> #[trigger] host[q] == (if ends.contains(q as u32) {
            patched(t[q], join)
        } else {
            t[q]
        })
    &&& forall|c: u32| #[trigger] now.contains(c) ==> was.contains(c) || t.len() <= c < join
    &&& forall|c: u32| #[trigger] was.contains(c) ==> now.contains(c)
    &&& confined(host, t.len() as int, join as int, join)
    &&& forall|c: u32, s: Seq<u8>|
        now.contains(c) && c >= t.len() && #[trigger] walks(
            host,
            c,
            join,
            s,
            t.len() as int,
            join as int,
        ) ==> l(s)
    &&& forall|s: Seq<u8>| #[trigger]
        l(s) ==> exists|c: u32|
            #[trigger] now.contains(c) && c >= t.len() && walks(
                host,
                c,
                join,
                s,
                t.len() as int,
                join as int,
            )
}

/// What hosts a union with its branches and their join holds no further
/// branch behind them.
pub proof fn lemma_branched_join(
    host: Seq<StateModel>,
    t: Seq<StateModel>,
    lo: int,
    ends: Seq<u32>,
    x: u32,
)
    requires
        fan(t, lo, ends),
        apart(ends),
        spec_join(t, lo as u32, ends) is Ok,
        hosts(
            host,
            spec_join(t, lo as u32, ends)->Ok_0.0,
            spec_join(t, lo as u32, ends)->Ok_0.1.end,
            x,
            lo,
            spec_join(t, lo as u32, ends)->Ok_0.0.len() as int,
        ),
    ensures
        spec_join(t, lo as u32, ends)->Ok_0.1.end == t.len(),
        spec_join(t, lo as u32, ends)->Ok_0.0.len() == t.len() + 1,
        host[t.len() as int] == (StateModel::Empty { next: x }),
        branched(host, t, lo, ends, t.len() as u32, nothing()),
{
    let join = t.len() as u32;
    let mid = t.len() as int;
    let t1 = t.push(StateModel::Empty { next: 0 });
    let last = spec_patch_all(t1, ends, join);
    lemma_patch_all_each(t1, ends, join);
    assert(last == spec_join(t, lo as u32, ends)->Ok_0.0);
    assert forall|k: int| 0 <= k < ends.len() implies ends[k] != lo && ends[k] != join by {
        assert(lo < ends[k] < t.len());
    }
    assert(!ends.contains(lo as u32));
    assert(!ends.contains(join));
    assert(host[lo] == spec_patch(last, join, x)[lo]);
    assert(last[lo] == t1[lo]);
    assert(host[mid] == spec_patch(last, join, x)[mid]);
    assert(last[mid] == t1[mid]);
    assert forall|q: int| lo < q < t.len() implies #[trigger] host[q] == (if ends.contains(
        q as u32,
    ) {
        patched(t[q], join)
    } else {
        t[q]
    }) by {
        assert(host[q] == spec_patch(last, join, x)[q]);
        assert(t1[q] == t[q]);
    }
    let was = t[lo]->Union_alternates;
    assert forall|c: u32, s: Seq<u8>|
        was.contains(c) && c >= t.len() && #[trigger] walks(host, c, join, s, mid, mid) implies false by {
        let k = choose|k: int| 0 <= k < was.len() && was[k] == c;
        assert(lo <= was[k] < t.len());
    }
}

/// What hosts a union with its branches and further branches behind them
/// hosts the last of the branches, with its exit led on to the join.
pub proof fn lemma_branched_hosts(
    host: Seq<StateModel>,
    t: Seq<StateModel>,
    lo: int,
    ends: Seq<u32>,
    t1: Seq<StateModel>,
    r: ThompsonRef,
    join: u32,
    l: Language,
)
    requires
        fan(t, lo, ends),
        shape(t, t1, r),
        branched(host, spec_patch(t1, lo as u32, r.start), lo, ends.push(r.end), join, l),
    ensures
        hosts(host, t1, r.end, join, t.len() as int, t1.len() as int),
{
    let t2 = spec_patch(t1, lo as u32, r.start);
    let more = ends.push(r.end);
    assert forall|q: int| t.len() <= q < t1.len() implies #[trigger] host[q] == spec_patch(
        t1,
        r.end,
        join,
    )[q] by {
        assert(t2[q] == t1[q]);
        if q == r.end {
            assert(more[ends.len() as int] == r.end);
            assert(more.contains(q as u32));
        } else if more.contains(q as u32) {
            let k = choose|k: int| 0 <= k < more.len() && more[k] == q as u32;
            assert(ends[k] == q as u32);
        }
    }
}

/// A branch and the branches behind it read what the branch reads and
/// what the others read.
pub proof fn lemma_branched_step(
    host: Seq<StateModel>,
    t: Seq<StateModel>,
    lo: int,
    ends: Seq<u32>,
    t1: Seq<StateModel>,
    r: ThompsonRef,
    join: u32,
    la: Language,
    lb: Language,
)
    requires
        fan(t, lo, ends),
        shape(t, t1, r),
        branched(host, spec_patch(t1, lo as u32, r.start), lo, ends.push(r.end), join, lb),
        forall|s1: Seq<u8>|
            #![trigger la(s1)]
            #![trigger walks(host, r.start, join, s1, t.len() as int, t1.len() as int)]
            walks(host, r.start, join, s1, t.len() as int, t1.len() as int) <==> la(s1),
    ensures
        branched(host, t, lo, ends, join, either(la, lb)),
{
    let t2 = spec_patch(t1, lo as u32, r.start);
    let more = ends.push(r.end);
    let mid = t.len() as int;
    let mid1 = t1.len() as int;
    let hi = join as int;
    let l = either(la, lb);
    let was = t[lo]->Union_alternates;
    let then = t2[lo]->Union_alternates;
    let now = host[lo]->Union_alternates;
    lemma_branched_hosts(host, t, lo, ends, t1, r, join, lb);
    lemma_hosted_confined(host, t1, r.end, join, mid, mid1);
    lemma_confined_join(host, mid, mid1, hi, join, join);
    assert(t1[lo] == t[lo]);
    lemma_patched_alternates(t[lo], r.start);
    assert forall|q: int| lo < q < t.len() implies #[trigger] host[q] == (if ends.contains(
        q as u32,
    ) {
        patched(t[q], join)
    } else {
        t[q]
    }) by {
        assert(t2[q] == t1[q]);
        assert(t1[q] == t[q]);
        if ends.contains(q as u32) {
            let k = choose|k: int| 0 <= k < ends.len() && ends[k] == q as u32;
            assert(more[k] == q as u32);
        } else if more.contains(q as u32) {
            let k = choose|k: int| 0 <= k < more.len() && more[k] == q as u32;
            assert(k == ends.len());
        }
    }
    assert forall|c: u32| #[trigger] now.contains(c) implies was.contains(c) || t.len() <= c
        < join by {
        if then.contains(c) {
            assert(was.contains(c) || c == r.start);
        }
    }
    assert forall|c: u32| #[trigger] was.contains(c) implies now.contains(c) by {
        assert(then.contains(c));
    }
    assert(then.contains(r.start));
    assert(now.contains(r.start));
    assert forall|c: u32, s: Seq<u8>|
        now.contains(c) && c >= t.len() && #[trigger] walks(host, c, join, s, mid, hi) implies l(
        s,
    ) by {
        let n = choose|n: nat| walk(host, c, join, s, mid, hi, n);
        if c >= mid1 {
            lemma_walk_stays(host, c, join, s, mid, hi, mid1, hi, n);
            assert(walks(host, c, join, s, mid1, hi));
            assert(lb(s));
        } else {
            if was.contains(c) {
                let k = choose|k: int| 0 <= k < was.len() && was[k] == c;
                assert(lo <= was[k] < t.len());
            }
            assert(then.contains(c));
            assert(c == r.start);
            lemma_walk_stays(host, c, join, s, mid, hi, mid, mid1, n);
            assert(walks(host, r.start, join, s, mid, mid1));
            assert(la(s));
        }
    }
    assert forall|s: Seq<u8>| #[trigger] l(s) implies exists|c: u32|
        #[trigger] now.contains(c) && c >= t.len() && walks(host, c, join, s, mid, hi) by {
        if la(s) {
            assert(walks(host, r.start, join, s, mid, mid1));
            let n = choose|n: nat| walk(host, r.start, join, s, mid, mid1, n);
            lemma_walk_wider(host, r.start, join, s, mid, mid1, mid, hi, n);
            assert(now.contains(r.start) && r.start >= t.len() && walks(
                host,
                r.start,
                join,
                s,
                mid,
                hi,
            ));
        } else {
            assert(lb(s));
            let c = choose|c: u32|
                #[trigger] now.contains(c) && c >= t2.len() && walks(host, c, join, s, mid1, hi);
            let n = choose|n: nat| walk(host, c, join, s, mid1, hi, n);
            lemma_walk_wider(host, c, join, s, mid1, hi, mid, hi, n);
            assert(now.contains(c) && c >= t.len() && walks(host, c, join, s, mid, hi));
        }
    }
}

/// Branches that read the texts of a language read the texts of every
/// language that has the same texts.
pub proof fn lemma_branched_same(
    host: Seq<StateModel>,
    t: Seq<StateModel>,
    lo: int,
    ends: Seq<u32>,
    join: u32,
    la: Language,
    lb: Language,
)
    requires
        branched(host, t, lo, ends, join, la),
        forall|s: Seq<u8>| #![trigger la(s)] #![trigger lb(s)] la(s) <==> lb(s),
    ensures
        branched(host, t, lo, ends, join, lb),
{
    let now = host[lo]->Union_alternates;
    let mid = t.len() as int;
    let hi = join as int;
    assert forall|s: Seq<u8>| #[trigger] lb(s) implies exists|c: u32|
        #[trigger] now.contains(c) && c >= t.len() && walks(host, c, join, s, mid, hi) by {
        assert(la(s));
    }
}

/// A union with its branches and their join reads what the branches
/// read.
pub proof fn lemma_lang_fan(
    host: Seq<StateModel>,
    t: Seq<StateModel>,
    lo: int,
    join: u32,
    x: u32,
    hi: int,
    l: Language,
    s: Seq<u8>,
)
    requires
        fan(t, lo, Seq::<u32>::empty()),
        t.len() == lo + 1,
        t[lo]->Union_alternates.len() == 0,
        branched(host, t, lo, Seq::<u32>::empty(), join, l),
        hi == join + 1,
        hi <= host.len(),
        host[join as int] == (StateModel::Empty { next: x }),
        !(lo <= x < hi),
    ensures
        walks(host, lo as u32, x, s, lo, hi) <==> l(s),
{
    let u = lo as u32;
    let inner = t.len() as int;
    let mid = join as int;
    let was = t[lo]->Union_alternates;
    let now = host[lo]->Union_alternates;
    assert forall|c: u32| #[trigger] now.contains(c) implies inner <= c < join by {
        if was.contains(c) {
            let k = choose|k: int| 0 <= k < was.len() && was[k] == c;
        }
    }
    assert forall|a: u32, c: u32| lo <= a < mid && #[trigger] leads(host, a, c) implies lo <= c
        < mid || c == join by {
        if a == u {
            assert(now.contains(c));
        } else {
            assert(inner <= c < mid || c == join);
        }
    }
    assert forall|s1: Seq<u8>|
        #![trigger l(s1)]
        #![trigger walks(host, u, join, s1, lo, mid)]
        walks(host, u, join, s1, lo, mid) <==> l(s1) by {
        if walks(host, u, join, s1, lo, mid) {
            let n = choose|n: nat| walk(host, u, join, s1, lo, mid, n);
            assert(n > 0);
            let k = (n - 1) as nat;
            assert(!(s1.len() > 0 && exists|c: u32|
                reads(host, u, s1[0], c) && walk(host, c, join, s1.drop_first(), lo, mid, k)));
            let c = choose|c: u32| eps_edge(host, u, c) && walk(host, c, join, s1, lo, mid, k);
            assert(now.contains(c));
            lemma_walk_stays(host, c, join, s1, lo, mid, inner, mid, k);
            assert(walks(host, c, join, s1, inner, mid));
        }
        if l(s1) {
            let c = choose|c: u32|
                #[trigger] now.contains(c) && c >= t.len() && walks(host, c, join, s1, inner, mid);
            let n = choose|n: nat| walk(host, c, join, s1, inner, mid, n);
            lemma_walk_wider(host, c, join, s1, inner, mid, lo, mid, n);
            assert(eps_edge(host, u, c) && walk(host, c, join, s1, lo, mid, n));
            assert(walk(host, u, join, s1, lo, mid, n + 1));
        }
    }
    lemma_lang_then_empty(host, u, join, x, lo, hi, l, s);
}

/// The texts that are in one of the sequences of byte ranges from `i`
/// on.
pub open spec fn in_sequences_from(seqs: Seq<Seq<(u8, u8)>>, i: int) -> Language {
    |s: Seq<u8>| exists|j: int| 0 <= i <= j < seqs.len() && in_sequence(#[trigger] seqs[j], s)
}

/// The texts of the languages from `i` on.
pub open spec fn any_from(ls: Seq<Language>, i: int) -> Language {
    |s: Seq<u8>| any_of(ls, i, s)
}

/// The exits of the branches of a union and the exit of a further branch
/// are apart.
pub proof fn lemma_apart_push(t: Seq<StateModel>, lo: int, ends: Seq<u32>, end: u32)
    requires
        fan(t, lo, ends),
        apart(ends),
        end >= t.len(),
    ensures
        apart(ends.push(end)),
{
    let more = ends.push(end);
    assert forall|j: int, k: int| 0 <= j < k < more.len() implies more[j] != more[k] by {
        assert(more[j] == ends[j]);
        assert(ends[j] < t.len());
        if k < ends.len() {
            assert(more[k] == ends[k]);
        }
    }
}

/// The branches from `i` on of an alternation of sequences of byte
/// ranges read what is in one of these sequences.
pub proof fn lemma_lang_sequences_rest(
    t: Seq<StateModel>,
    seqs: Seq<Seq<(u8, u8)>>,
    i: int,
    lo: int,
    ends: Seq<u32>,
    host: Seq<StateModel>,
    x: u32,
)
    requires
        0 <= i <= seqs.len(),
        fan(t, lo, ends),
        apart(ends),
        spec_sequences_rest(t, seqs, i, lo as u32, ends) is Ok,
        hosts(
            host,
            spec_sequences_rest(t, seqs, i, lo as u32, ends)->Ok_0.0,
            spec_sequences_rest(t, seqs, i, lo as u32, ends)->Ok_0.1.end,
            x,
            lo,
            spec_sequences_rest(t, seqs, i, lo as u32, ends)->Ok_0.0.len() as int,
        ),
    ensures
        ({
            let join = spec_sequences_rest(t, seqs, i, lo as u32, ends)->Ok_0.1.end;
            &&& branched(host, t, lo, ends, join, in_sequences_from(seqs, i))
            &&& host[join as int] == (StateModel::Empty { next: x })
            &&& spec_sequences_rest(t, seqs, i, lo as u32, ends)->Ok_0.0.len() == join + 1
        }),
    decreases seqs.len() - i,
{
    let l = in_sequences_from(seqs, i);
    if i >= seqs.len() {
        lemma_branched_join(host, t, lo, ends, x);
        lemma_branched_same(host, t, lo, ends, t.len() as u32, nothing(), l);
    } else {
        lemma_shape_sequence(t, seqs[i]);
        let (t1, r) = spec_sequence(t, seqs[i])->Ok_0;
        lemma_fan_step(t, lo, ends, t1, r);
        lemma_apart_push(t, lo, ends, r.end);
        let t2 = spec_patch(t1, lo as u32, r.start);
        let more = ends.push(r.end);
        let join = spec_sequences_rest(t2, seqs, i + 1, lo as u32, more)->Ok_0.1.end;
        lemma_lang_sequences_rest(t2, seqs, i + 1, lo, more, host, x);
        let la = |s: Seq<u8>| in_sequence(seqs[i], s);
        let lb = in_sequences_from(seqs, i + 1);
        lemma_branched_hosts(host, t, lo, ends, t1, r, join, lb);
        assert forall|s1: Seq<u8>|
            #![trigger la(s1)]
            #![trigger walks(host, r.start, join, s1, t.len() as int, t1.len() as int)]
            walks(host, r.start, join, s1, t.len() as int, t1.len() as int) <==> la(s1) by {
            lemma_lang_sequence(t, seqs[i], host, join, s1);
        }
        lemma_branched_step(host, t, lo, ends, t1, r, join, la, lb);
        assert forall|s: Seq<u8>|
            #![trigger either(la, lb)(s)]
            #![trigger l(s)]
            either(la, lb)(s) <==> l(s) by {
            if lb(s) {
                let j = choose|j: int|
                    0 <= i + 1 <= j < seqs.len() && in_sequence(#[trigger] seqs[j], s);
                assert(0 <= i <= j < seqs.len() && in_sequence(seqs[j], s));
            }
            if l(s) {
                let j = choose|j: int| 0 <= i <= j < seqs.len() && in_sequence(#[trigger] seqs[j], s);
                if j > i {
                    assert(0 <= i + 1 <= j < seqs.len() && in_sequence(seqs[j], s));
                }
            }
        }
        lemma_branched_same(host, t, lo, ends, join, either(la, lb), l);
    }
}

/// The fragment of an alternation of sequences of byte ranges reads what
/// is in one of the sequences.
pub proof fn lemma_lang_sequences(
    t: Seq<StateModel>,
    seqs: Seq<Seq<(u8, u8)>>,
    host: Seq<StateModel>,
    x: u32,
    s: Seq<u8>,
)
    requires
        spec_sequences(t, seqs) is Ok,
        hosts(
            host,
            spec_sequences(t, seqs)->Ok_0.0,
            spec_sequences(t, seqs)->Ok_0.1.end,
            x,
            t.len() as int,
            spec_sequences(t, seqs)->Ok_0.0.len() as int,
        ),
    ensures
        walks(
            host,
            spec_sequences(t, seqs)->Ok_0.1.start,
            x,
            s,
            t.len() as int,
            spec_sequences(t, seqs)->Ok_0.0.len() as int,
        ) <==> in_sequences(seqs, s),
{
    let lo = t.len() as int;
    lemma_fan_start(t, true);
    let (t1, u) = spec_union(t, true)->Ok_0;
    let none = Seq::<u32>::empty();
    let (t2, r) = spec_sequences_rest(t1, seqs, 0, u.start, none)->Ok_0;
    lemma_shape_sequences_rest(t1, seqs, 0, lo, none);
    lemma_lang_sequences_rest(t1, seqs, 0, lo, none, host, x);
    let l = in_sequences_from(seqs, 0);
    lemma_lang_fan(host, t1, lo, r.end, x, t2.len() as int, l, s);
    if in_sequences(seqs, s) {
        let j = choose|j: int| 0 <= j < seqs.len() && in_sequence(#[trigger] seqs[j], s);
        assert(0 <= 0 <= j < seqs.len() && in_sequence(seqs[j], s));
    }
}

/// The fragment of an expression reads what the expression matches,
/// wherever its exit leads.
pub proof fn lemma_lang_compile(
    t: Seq<StateModel>,
    e: Hir,
    host: Seq<StateModel>,
    x: u32,
    s: Seq<u8>,
)
    requires
        spec_compile(t, e) is Ok,
        hosts(
            host,
            spec_compile(t, e)->Ok_0.0,
            spec_compile(t, e)->Ok_0.1.end,
            x,
            t.len() as int,
            spec_compile(t, e)->Ok_0.0.len() as int,
        ),
    ensures
        walks(
            host,
            spec_compile(t, e)->Ok_0.1.start,
            x,
            s,
            t.len() as int,
            spec_compile(t, e)->Ok_0.0.len() as int,
        ) <==> matches(e, s),
    decreases e, 0nat, 0nat,
{
    let lo = t.len() as int;
    match e {
        Hir::Empty => {
            lemma_shape_add(t, StateModel::Empty { next: 0 });
            lemma_lang_empty_state(host, lo as u32, x, s, lo + 1);
        },
        Hir::Literal(Literal::Unicode(c)) => {
            lemma_lang_sequence(t, literal_ranges(c), host, x, s);
            if in_sequence(literal_ranges(c), s) {
                assert(s =~= encode_scalar(c as u32));
            }
        },
        Hir::Literal(Literal::Byte(b)) => {
            lemma_shape_add(t, StateModel::Range { start: b, end: b, next: 0 });
            lemma_lang_range_state(host, lo as u32, x, s, lo + 1, (b, b));
            if s.len() == 1 && s[0] == b {
                assert(s =~= seq![b]);
            }
        },
        Hir::Class(Class::Bytes(ranges)) => {
            let seqs = byte_class_sequences(ranges@);
            lemma_lang_sequences(t, seqs, host, x, s);
            if in_sequences(seqs, s) {
                let i = choose|i: int| 0 <= i < seqs.len() && in_sequence(#[trigger] seqs[i], s);
                assert(seqs[i][0] == (ranges@[i].start, ranges@[i].end));
                assert(ranges@[i].start <= s[0] <= ranges@[i].end);
            }
            if s.len() == 1 && in_byte_class(ranges@, s[0]) {
                let i = choose|i: int|
                    0 <= i < ranges@.len() && (#[trigger] ranges@[i]).start <= s[0] <= ranges@[i].end;
                assert(seqs[i][0] == (ranges@[i].start, ranges@[i].end));
                assert(in_sequence(seqs[i], s));
            }
        },
        Hir::Class(Class::Unicode(ranges)) => {
            lemma_lang_sequences(t, class_sequences(ranges@), host, x, s);
        },
        Hir::Repetition(rep) => {
            lemma_lang_repetition(t, rep, host, x, s);
        },
        Hir::Group(inner) => {
            lemma_lang_compile(t, *inner, host, x, s);
        },
        Hir::Concat(exprs) => {
            lemma_lang_concat(t, exprs@, host, x, s);
        },
        Hir::Alternation(exprs) => {
            lemma_lang_alternation(t, exprs@, host, x, s);
        },
        Hir::Anchor => {},
        Hir::WordBoundary => {},
    }
}

/// The rest of a chain of the fragments of expressions reads what the
/// expressions match, one after the other.
pub proof fn lemma_lang_concat_rest(
    t: Seq<StateModel>,
    exprs: Seq<Hir>,
    i: int,
    lo: int,
    start: u32,
    end: u32,
    host: Seq<StateModel>,
    x: u32,
    s: Seq<u8>,
)
    requires
        1 <= i <= exprs.len(),
        chain(t, lo, end),
        spec_concat_rest(t, exprs, i, start, end) is Ok,
        hosts(
            host,
            spec_concat_rest(t, exprs, i, start, end)->Ok_0.0,
            spec_concat_rest(t, exprs, i, start, end)->Ok_0.1.end,
            x,
            lo,
            spec_concat_rest(t, exprs, i, start, end)->Ok_0.0.len() as int,
        ),
    ensures
        ({
            let hi = spec_concat_rest(t, exprs, i, start, end)->Ok_0.0.len() as int;
            let y = if i < exprs.len() {
                t.len() as u32
            } else {
                x
            };
            &&& hosts(host, t, end, y, lo, t.len() as int)
            &&& confined(host, t.len() as int, hi, x)
            &&& t.len() <= y < hi || y == x
            &&& walks(host, y, x, s, t.len() as int, hi) <==> concat_of(languages(exprs), i, s)
        }),
    decreases exprs, exprs.len() - i, 0nat,
{
    let mid = t.len() as int;
    if i >= exprs.len() {
        if walks(host, x, x, s, mid, mid) {
            let n = choose|n: nat| walk(host, x, x, s, mid, mid, n);
            lemma_walk_ends(host, x, s, mid, mid, n);
        }
        if s.len() == 0 {
            assert(walk(host, x, x, s, mid, mid, 0));
        }
    } else {
        lemma_shape_compile(t, exprs[i]);
        let (t1, r) = spec_compile(t, exprs[i])->Ok_0;
        lemma_chain_step(t, lo, end, t1, r);
        let t2 = spec_patch(t1, end, r.start);
        let (t3, r3) = spec_concat_rest(t2, exprs, i + 1, start, r.end)->Ok_0;
        let hi = t3.len() as int;
        let mid1 = t1.len() as int;
        lemma_shape_concat_rest(t2, exprs, i + 1, lo, start, r.end);
        let y1 = if i + 1 < exprs.len() {
            mid1 as u32
        } else {
            x
        };
        lemma_lang_concat_rest(t2, exprs, i + 1, lo, start, r.end, host, x, s);
        lemma_hosts_last(host, t, end, t1, r, y1, lo);
        lemma_hosted_confined(host, t1, r.end, y1, mid, mid1);
        lemma_confined_join(host, mid, mid1, hi, y1, x);
        let ls = languages(exprs);
        let la = language(exprs[i]);
        let lb = |s2: Seq<u8>| concat_of(ls, i + 1, s2);
        assert(ls[i] == la);
        assert forall|s1: Seq<u8>|
            #![trigger la(s1)]
            #![trigger walks(host, r.start, y1, s1, mid, mid1)]
            walks(host, r.start, y1, s1, mid, mid1) <==> la(s1) by {
            lemma_lang_compile(t, exprs[i], host, y1, s1);
        }
        assert forall|s2: Seq<u8>|
            #![trigger lb(s2)]
            #![trigger walks(host, y1, x, s2, mid1, hi)]
            walks(host, y1, x, s2, mid1, hi) <==> lb(s2) by {
            lemma_lang_concat_rest(t2, exprs, i + 1, lo, start, r.end, host, x, s2);
        }
        lemma_lang_pair(host, r.start, y1, x, mid, mid1, hi, la, lb, s);
        if concat_of(ls, i, s) {
            let k = choose|k: int|
                0 <= k <= s.len() && #[trigger] ls[i](s.take(k)) && concat_of(ls, i + 1, s.skip(k));
            assert(la(s.take(k)) && lb(s.skip(k)));
        }
        if walks(host, r.start, x, s, mid, hi) {
            let k = choose|k: int| 0 <= k <= s.len() && #[trigger] la(s.take(k)) && lb(s.skip(k));
            assert(ls[i](s.take(k)) && concat_of(ls, i + 1, s.skip(k)));
        }
    }
}

/// The fragment of a concatenation reads what its expressions match, one
/// after the other.
pub proof fn lemma_lang_concat(
    t: Seq<StateModel>,
    exprs: Seq<Hir>,
    host: Seq<StateModel>,
    x: u32,
    s: Seq<u8>,
)
    requires
        spec_concat(t, exprs) is Ok,
        hosts(
            host,
            spec_concat(t, exprs)->Ok_0.0,
            spec_concat(t, exprs)->Ok_0.1.end,
            x,
            t.len() as int,
            spec_concat(t, exprs)->Ok_0.0.len() as int,
        ),
    ensures
        walks(
            host,
            spec_concat(t, exprs)->Ok_0.1.start,
            x,
            s,
            t.len() as int,
            spec_concat(t, exprs)->Ok_0.0.len() as int,
        ) <==> concat_of(languages(exprs), 0, s),
    decreases exprs, exprs.len() + 1, 0nat,
{
    let lo = t.len() as int;
    if exprs.len() == 0 {
        lemma_shape_add(t, StateModel::Empty { next: 0 });
        lemma_lang_empty_state(host, lo as u32, x, s, lo + 1);
    } else {
        lemma_shape_compile(t, exprs[0]);
        let (t1, r) = spec_compile(t, exprs[0])->Ok_0;
        lemma_shape_chain(t, t1, r);
        let (t3, r3) = spec_concat_rest(t1, exprs, 1, r.start, r.end)->Ok_0;
        let hi = t3.len() as int;
        let mid = t1.len() as int;
        let y = if 1 < exprs.len() {
            mid as u32
        } else {
            x
        };
        lemma_shape_concat_rest(t1, exprs, 1, lo, r.start, r.end);
        lemma_lang_concat_rest(t1, exprs, 1, lo, r.start, r.end, host, x, s);
        lemma_hosted_confined(host, t1, r.end, y, lo, mid);
        let ls = languages(exprs);
        let la = language(exprs[0]);
        let lb = |s2: Seq<u8>| concat_of(ls, 1, s2);
        assert(ls[0] == la);
        assert forall|s1: Seq<u8>|
            #![trigger la(s1)]
            #![trigger walks(host, r.start, y, s1, lo, mid)]
            walks(host, r.start, y, s1, lo, mid) <==> la(s1) by {
            lemma_lang_compile(t, exprs[0], host, y, s1);
        }
        assert forall|s2: Seq<u8>|
            #![trigger lb(s2)]
            #![trigger walks(host, y, x, s2, mid, hi)]
            walks(host, y, x, s2, mid, hi) <==> lb(s2) by {
            lemma_lang_concat_rest(t1, exprs, 1, lo, r.start, r.end, host, x, s2);
        }
        lemma_lang_pair(host, r.start, y, x, lo, mid, hi, la, lb, s);
        if concat_of(ls, 0, s) {
            let k = choose|k: int|
                0 <= k <= s.len() && #[trigger] ls[0](s.take(k)) && concat_of(ls, 1, s.skip(k));
            assert(la(s.take(k)) && lb(s.skip(k)));
        }
        if walks(host, r.start, x, s, lo, hi) {
            let k = choose|k: int| 0 <= k <= s.len() && #[trigger] la(s.take(k)) && lb(s.skip(k));
            assert(ls[0](s.take(k)) && concat_of(ls, 1, s.skip(k)));
        }
    }
}

/// The rest of a chain of copies of a fragment reads as many texts that
/// the expression matches, one after the other.
pub proof fn lemma_lang_copies_rest(
    t: Seq<StateModel>,
    e: Hir,
    left: nat,
    lo: int,
    start: u32,
    end: u32,
    host: Seq<StateModel>,
    x: u32,
    s: Seq<u8>,
)
    requires
        chain(t, lo, end),
        spec_copies_rest(t, e, left, start, end) is Ok,
        hosts(
            host,
            spec_copies_rest(t, e, left, start, end)->Ok_0.0,
            spec_copies_rest(t, e, left, start, end)->Ok_0.1.end,
            x,
            lo,
            spec_copies_rest(t, e, left, start, end)->Ok_0.0.len() as int,
        ),
    ensures
        ({
            let hi = spec_copies_rest(t, e, left, start, end)->Ok_0.0.len() as int;
            let y = if left > 0 {
                t.len() as u32
            } else {
                x
            };
            &&& hosts(host, t, end, y, lo, t.len() as int)
            &&& confined(host, t.len() as int, hi, x)
            &&& t.len() <= y < hi || y == x
            &&& walks(host, y, x, s, t.len() as int, hi) <==> power_of(language(e), left, s)
        }),
    decreases e, 1nat, left,
{
    let mid = t.len() as int;
    if left == 0 {
        if walks(host, x, x, s, mid, mid) {
            let n = choose|n: nat| walk(host, x, x, s, mid, mid, n);
            lemma_walk_ends(host, x, s, mid, mid, n);
        }
        if s.len() == 0 {
            assert(walk(host, x, x, s, mid, mid, 0));
        }
    } else {
        let fewer = (left - 1) as nat;
        lemma_shape_compile(t, e);
        let (t1, r) = spec_compile(t, e)->Ok_0;
        lemma_chain_step(t, lo, end, t1, r);
        let t2 = spec_patch(t1, end, r.start);
        let (t3, r3) = spec_copies_rest(t2, e, fewer, start, r.end)->Ok_0;
        let hi = t3.len() as int;
        let mid1 = t1.len() as int;
        lemma_shape_copies_rest(t2, e, fewer, lo, start, r.end);
        let y1 = if fewer > 0 {
            mid1 as u32
        } else {
            x
        };
        lemma_lang_copies_rest(t2, e, fewer, lo, start, r.end, host, x, s);
        lemma_hosts_last(host, t, end, t1, r, y1, lo);
        lemma_hosted_confined(host, t1, r.end, y1, mid, mid1);
        lemma_confined_join(host, mid, mid1, hi, y1, x);
        let la = language(e);
        let lb = |s2: Seq<u8>| power_of(la, fewer, s2);
        assert forall|s1: Seq<u8>|
            #![trigger la(s1)]
            #![trigger walks(host, r.start, y1, s1, mid, mid1)]
            walks(host, r.start, y1, s1, mid, mid1) <==> la(s1) by {
            lemma_lang_compile(t, e, host, y1, s1);
        }
        assert forall|s2: Seq<u8>|
            #![trigger lb(s2)]
            #![trigger walks(host, y1, x, s2, mid1, hi)]
            walks(host, y1, x, s2, mid1, hi) <==> lb(s2) by {
            lemma_lang_copies_rest(t2, e, fewer, lo, start, r.end, host, x, s2);
        }
        lemma_lang_pair(host, r.start, y1, x, mid, mid1, hi, la, lb, s);
        if power_of(la, left, s) {
            let k = choose|k: int|
                0 <= k <= s.len() && #[trigger] la(s.take(k)) && power_of(la, fewer, s.skip(k));
            assert(la(s.take(k)) && lb(s.skip(k)));
        }
        if walks(host, r.start, x, s, mid, hi) {
            let k = choose|k: int| 0 <= k <= s.len() && #[trigger] la(s.take(k)) && lb(s.skip(k));
            assert(la(s.take(k)) && power_of(la, fewer, s.skip(k)));
        }
    }
}

/// The fragment of a repetition of `n` times reads `n` texts that the
/// expression matches, one after the other.
pub proof fn lemma_lang_exactly(
    t: Seq<StateModel>,
    e: Hir,
    n: nat,
    host: Seq<StateModel>,
    x: u32,
    s: Seq<u8>,
)
    requires
        spec_exactly(t, e, n) is Ok,
        hosts(
            host,
            spec_exactly(t, e, n)->Ok_0.0,
            spec_exactly(t, e, n)->Ok_0.1.end,
            x,
            t.len() as int,
            spec_exactly(t, e, n)->Ok_0.0.len() as int,
        ),
    ensures
        walks(
            host,
            spec_exactly(t, e, n)->Ok_0.1.start,
            x,
            s,
            t.len() as int,
            spec_exactly(t, e, n)->Ok_0.0.len() as int,
        ) <==> power_of(language(e), n, s),
    decreases e, 2nat, n,
{
    let lo = t.len() as int;
    if n == 0 {
        lemma_shape_add(t, StateModel::Empty { next: 0 });
        lemma_lang_empty_state(host, lo as u32, x, s, lo + 1);
    } else {
        let fewer = (n - 1) as nat;
        lemma_shape_compile(t, e);
        let (t1, r) = spec_compile(t, e)->Ok_0;
        lemma_shape_chain(t, t1, r);
        let (t3, r3) = spec_copies_rest(t1, e, fewer, r.start, r.end)->Ok_0;
        let hi = t3.len() as int;
        let mid = t1.len() as int;
        let y = if fewer > 0 {
            mid as u32
        } else {
            x
        };
        lemma_shape_copies_rest(t1, e, fewer, lo, r.start, r.end);
        lemma_lang_copies_rest(t1, e, fewer, lo, r.start, r.end, host, x, s);
        lemma_hosted_confined(host, t1, r.end, y, lo, mid);
        let la = language(e);
        let lb = |s2: Seq<u8>| power_of(la, fewer, s2);
        assert forall|s1: Seq<u8>|
            #![trigger la(s1)]
            #![trigger walks(host, r.start, y, s1, lo, mid)]
            walks(host, r.start, y, s1, lo, mid) <==> la(s1) by {
            lemma_lang_compile(t, e, host, y, s1);
        }
        assert forall|s2: Seq<u8>|
            #![trigger lb(s2)]
            #![trigger walks(host, y, x, s2, mid, hi)]
            walks(host, y, x, s2, mid, hi) <==> lb(s2) by {
            lemma_lang_copies_rest(t1, e, fewer, lo, r.start, r.end, host, x, s2);
        }
        lemma_lang_pair(host, r.start, y, x, lo, mid, hi, la, lb, s);
        if power_of(la, n, s) {
            let k = choose|k: int|
                0 <= k <= s.len() && #[trigger] la(s.take(k)) && power_of(la, fewer, s.skip(k));
            assert(la(s.take(k)) && lb(s.skip(k)));
        }
        if walks(host, r.start, x, s, lo, hi) {
            let k = choose|k: int| 0 <= k <= s.len() && #[trigger] la(s.take(k)) && lb(s.skip(k));
            assert(la(s.take(k)) && power_of(la, fewer, s.skip(k)));
        }
    }
}

/// The fragment of an optional expression reads what the expression
/// matches, or nothing.
pub proof fn lemma_lang_zero_or_one(
    t: Seq<StateModel>,
    e: Hir,
    greedy: bool,
    host: Seq<StateModel>,
    x: u32,
    s: Seq<u8>,
)
    requires
        spec_zero_or_one(t, e, greedy) is Ok,
        hosts(
            host,
            spec_zero_or_one(t, e, greedy)->Ok_0.0,
            spec_zero_or_one(t, e, greedy)->Ok_0.1.end,
            x,
            t.len() as int,
            spec_zero_or_one(t, e, greedy)->Ok_0.0.len() as int,
        ),
    ensures
        walks(
            host,
            spec_zero_or_one(t, e, greedy)->Ok_0.1.start,
            x,
            s,
            t.len() as int,
            spec_zero_or_one(t, e, greedy)->Ok_0.0.len() as int,
        ) <==> optional(language(e))(s),
    decreases e, 1nat, 0nat,
{
    let lo = t.len() as int;
    lemma_fan_start(t, greedy);
    let (t1, u) = spec_union(t, greedy)->Ok_0;
    lemma_shape_compile(t1, e);
    let (t2, r) = spec_compile(t1, e)->Ok_0;
    lemma_shape_add(t2, StateModel::Empty { next: 0 });
    let (t3, join) = spec_empty(t2)->Ok_0;
    let inner = t1.len() as int;
    let mid = t2.len() as int;
    let hi = t3.len() as int;
    let last = spec_zero_or_one(t, e, greedy)->Ok_0.0;
    let l = language(e);
    lemma_two_alternates(!greedy, r.start, join.start);
    assert(host[lo] == spec_patch(last, join.start, x)[lo]);
    assert(t3[lo] == t1[lo]);
    assert(loops(host, u.start, r.start, join.start));
    assert(host[mid] == spec_patch(last, join.start, x)[mid]);
    assert(host[mid] == (StateModel::Empty { next: x }));
    assert forall|q: int| inner <= q < mid implies #[trigger] host[q] == spec_patch(
        t2,
        r.end,
        join.start,
    )[q] by {
        assert(host[q] == spec_patch(last, join.start, x)[q]);
        assert(t3[q] == t2[q]);
    }
    assert(hosts(host, t2, r.end, join.start, inner, mid));
    lemma_hosted_confined(host, t2, r.end, join.start, inner, mid);
    assert forall|s1: Seq<u8>|
        #![trigger l(s1)]
        #![trigger walks(host, r.start, join.start, s1, inner, mid)]
        walks(host, r.start, join.start, s1, inner, mid) <==> l(s1) by {
        lemma_lang_compile(t1, e, host, join.start, s1);
    }
    let opt = optional(l);
    assert forall|s1: Seq<u8>|
        #![trigger opt(s1)]
        #![trigger walks(host, u.start, join.start, s1, lo, mid)]
        walks(host, u.start, join.start, s1, lo, mid) <==> opt(s1) by {
        lemma_lang_option(host, u.start, r.start, join.start, l, inner, mid, s1);
    }
    lemma_lang_option(host, u.start, r.start, join.start, l, inner, mid, s);
    lemma_lang_then_empty(host, u.start, join.start, x, lo, hi, opt, s);
}

/// The rest of a chain of optional copies of a fragment reads as many
/// texts of which each is empty or one that the expression matches.
pub proof fn lemma_lang_optionals_rest(
    t: Seq<StateModel>,
    e: Hir,
    greedy: bool,
    left: nat,
    lo: int,
    start: u32,
    end: u32,
    host: Seq<StateModel>,
    x: u32,
    s: Seq<u8>,
)
    requires
        chain(t, lo, end),
        spec_optionals_rest(t, e, greedy, left, start, end) is Ok,
        hosts(
            host,
            spec_optionals_rest(t, e, greedy, left, start, end)->Ok_0.0,
            spec_optionals_rest(t, e, greedy, left, start, end)->Ok_0.1.end,
            x,
            lo,
            spec_optionals_rest(t, e, greedy, left, start, end)->Ok_0.0.len() as int,
        ),
    ensures
        ({
            let hi = spec_optionals_rest(t, e, greedy, left, start, end)->Ok_0.0.len() as int;
            let y = if left > 0 {
                t.len() as u32
            } else {
                x
            };
            &&& hosts(host, t, end, y, lo, t.len() as int)
            &&& confined(host, t.len() as int, hi, x)
            &&& t.len() <= y < hi || y == x
            &&& walks(host, y, x, s, t.len() as int, hi) <==> power_of(
                optional(language(e)),
                left,
                s,
            )
        }),
    decreases e, 2nat, left,
{
    let mid = t.len() as int;
    if left == 0 {
        if walks(host, x, x, s, mid, mid) {
            let n = choose|n: nat| walk(host, x, x, s, mid, mid, n);
            lemma_walk_ends(host, x, s, mid, mid, n);
        }
        if s.len() == 0 {
            assert(walk(host, x, x, s, mid, mid, 0));
        }
    } else {
        let fewer = (left - 1) as nat;
        lemma_shape_zero_or_one(t, e, greedy);
        let (t1, r) = spec_zero_or_one(t, e, greedy)->Ok_0;
        lemma_chain_step(t, lo, end, t1, r);
        let t2 = spec_patch(t1, end, r.start);
        let (t3, r3) = spec_optionals_rest(t2, e, greedy, fewer, start, r.end)->Ok_0;
        let hi = t3.len() as int;
        let mid1 = t1.len() as int;
        lemma_shape_optionals_rest(t2, e, greedy, fewer, lo, start, r.end);
        let y1 = if fewer > 0 {
            mid1 as u32
        } else {
            x
        };
        lemma_lang_optionals_rest(t2, e, greedy, fewer, lo, start, r.end, host, x, s);
        lemma_hosts_last(host, t, end, t1, r, y1, lo);
        lemma_hosted_confined(host, t1, r.end, y1, mid, mid1);
        lemma_confined_join(host, mid, mid1, hi, y1, x);
        let la = optional(language(e));
        let lb = |s2: Seq<u8>| power_of(la, fewer, s2);
        assert forall|s1: Seq<u8>|
            #![trigger la(s1)]
            #![trigger walks(host, r.start, y1, s1, mid, mid1)]
            walks(host, r.start, y1, s1, mid, mid1) <==> la(s1) by {
            lemma_lang_zero_or_one(t, e, greedy, host, y1, s1);
        }
        assert forall|s2: Seq<u8>|
            #![trigger lb(s2)]
            #![trigger walks(host, y1, x, s2, mid1, hi)]
            walks(host, y1, x, s2, mid1, hi) <==> lb(s2) by {
            lemma_lang_optionals_rest(t2, e, greedy, fewer, lo, start, r.end, host, x, s2);
        }
        lemma_lang_pair(host, r.start, y1, x, mid, mid1, hi, la, lb, s);
        if power_of(la, left, s) {
            let k = choose|k: int|
                0 <= k <= s.len() && #[trigger] la(s.take(k)) && power_of(la, fewer, s.skip(k));
            assert(la(s.take(k)) && lb(s.skip(k)));
        }
        if walks(host, r.start, x, s, mid, hi) {
            let k = choose|k: int| 0 <= k <= s.len() && #[trigger] la(s.take(k)) && lb(s.skip(k));
            assert(la(s.take(k)) && power_of(la, fewer, s.skip(k)));
        }
    }
}

/// The fragment of `count` optional copies in a row reads up to `count`
/// texts that the expression matches, one after the other.
pub proof fn lemma_lang_optionals(
    t: Seq<StateModel>,
    e: Hir,
    greedy: bool,
    count: nat,
    host: Seq<StateModel>,
    x: u32,
    s: Seq<u8>,
)
    requires
        spec_optionals(t, e, greedy, count) is Ok,
        hosts(
            host,
            spec_optionals(t, e, greedy, count)->Ok_0.0,
            spec_optionals(t, e, greedy, count)->Ok_0.1.end,
            x,
            t.len() as int,
            spec_optionals(t, e, greedy, count)->Ok_0.0.len() as int,
        ),
    ensures
        walks(
            host,
            spec_optionals(t, e, greedy, count)->Ok_0.1.start,
            x,
            s,
            t.len() as int,
            spec_optionals(t, e, greedy, count)->Ok_0.0.len() as int,
        ) <==> between_of(language(e), 0, count, s),
    decreases e, 3nat, count,
{
    let lo = t.len() as int;
    let l = language(e);
    lemma_power_optional(l, count, s);
    if count == 0 {
        lemma_shape_add(t, StateModel::Empty { next: 0 });
        lemma_lang_empty_state(host, lo as u32, x, s, lo + 1);
    } else {
        let fewer = (count - 1) as nat;
        lemma_shape_zero_or_one(t, e, greedy);
        let (t1, r) = spec_zero_or_one(t, e, greedy)->Ok_0;
        lemma_shape_chain(t, t1, r);
        let (t3, r3) = spec_optionals_rest(t1, e, greedy, fewer, r.start, r.end)->Ok_0;
        let hi = t3.len() as int;
        let mid = t1.len() as int;
        let y = if fewer > 0 {
            mid as u32
        } else {
            x
        };
        lemma_shape_optionals_rest(t1, e, greedy, fewer, lo, r.start, r.end);
        lemma_lang_optionals_rest(t1, e, greedy, fewer, lo, r.start, r.end, host, x, s);
        lemma_hosted_confined(host, t1, r.end, y, lo, mid);
        let la = optional(l);
        let lb = |s2: Seq<u8>| power_of(la, fewer, s2);
        assert forall|s1: Seq<u8>|
            #![trigger la(s1)]
            #![trigger walks(host, r.start, y, s1, lo, mid)]
            walks(host, r.start, y, s1, lo, mid) <==> la(s1) by {
            lemma_lang_zero_or_one(t, e, greedy, host, y, s1);
        }
        assert forall|s2: Seq<u8>|
            #![trigger lb(s2)]
            #![trigger walks(host, y, x, s2, mid, hi)]
            walks(host, y, x, s2, mid, hi) <==> lb(s2) by {
            lemma_lang_optionals_rest(t1, e, greedy, fewer, lo, r.start, r.end, host, x, s2);
        }
        lemma_lang_pair(host, r.start, y, x, lo, mid, hi, la, lb, s);
        if power_of(la, count, s) {
            let k = choose|k: int|
                0 <= k <= s.len() && #[trigger] la(s.take(k)) && power_of(la, fewer, s.skip(k));
            assert(la(s.take(k)) && lb(s.skip(k)));
        }
        if walks(host, r.start, x, s, lo, hi) {
            let k = choose|k: int| 0 <= k <= s.len() && #[trigger] la(s.take(k)) && lb(s.skip(k));
            assert(la(s.take(k)) && power_of(la, fewer, s.skip(k)));
        }
    }
}

/// The fragment of a repetition from `min` to `max` times reads that
/// many texts that the expression matches, one after the other.
pub proof fn lemma_lang_bounded(
    t: Seq<StateModel>,
    e: Hir,
    greedy: bool,
    min: nat,
    max: nat,
    host: Seq<StateModel>,
    x: u32,
    s: Seq<u8>,
)
    requires
        spec_bounded(t, e, greedy, min, max) is Ok,
        hosts(
            host,
            spec_bounded(t, e, greedy, min, max)->Ok_0.0,
            spec_bounded(t, e, greedy, min, max)->Ok_0.1.end,
            x,
            t.len() as int,
            spec_bounded(t, e, greedy, min, max)->Ok_0.0.len() as int,
        ),
    ensures
        walks(
            host,
            spec_bounded(t, e, greedy, min, max)->Ok_0.1.start,
            x,
            s,
            t.len() as int,
            spec_bounded(t, e, greedy, min, max)->Ok_0.0.len() as int,
        ) <==> between_of(
            language(e),
            min,
            if max > min {
                max
            } else {
                min
            },
            s,
        ),
    decreases e, 4nat, 0nat,
{
    let lo = t.len() as int;
    let l = language(e);
    lemma_shape_exactly(t, e, min);
    let (t1, prefix) = spec_exactly(t, e, min)->Ok_0;
    let mid = t1.len() as int;
    if min == max {
        lemma_lang_exactly(t, e, min, host, x, s);
        if between_of(l, min, min, s) {
            let n = choose|n: nat| min <= n <= min && #[trigger] power_of(l, n, s);
            assert(n == min);
        }
    } else {
        let more: nat = if max > min {
            (max - min) as nat
        } else {
            0
        };
        lemma_shape_optionals(t1, e, greedy, more);
        let (t2, suffix) = spec_optionals(t1, e, greedy, more)->Ok_0;
        let hi = t2.len() as int;
        let last = spec_patch(t2, prefix.end, suffix.start);
        assert forall|q: int| lo <= q < mid implies #[trigger] host[q] == spec_patch(
            t1,
            prefix.end,
            suffix.start,
        )[q] by {
            assert(host[q] == spec_patch(last, suffix.end, x)[q]);
            assert(t2[q] == t1[q]);
        }
        assert forall|q: int| mid <= q < hi implies #[trigger] host[q] == spec_patch(
            t2,
            suffix.end,
            x,
        )[q] by {
            assert(host[q] == spec_patch(last, suffix.end, x)[q]);
        }
        assert(hosts(host, t1, prefix.end, suffix.start, lo, mid));
        assert(hosts(host, t2, suffix.end, x, mid, hi));
        lemma_hosted_confined(host, t1, prefix.end, suffix.start, lo, mid);
        lemma_hosted_confined(host, t2, suffix.end, x, mid, hi);
        let la = |s1: Seq<u8>| power_of(l, min, s1);
        let lb = |s2: Seq<u8>| between_of(l, 0, more, s2);
        assert forall|s1: Seq<u8>|
            #![trigger la(s1)]
            #![trigger walks(host, prefix.start, suffix.start, s1, lo, mid)]
            walks(host, prefix.start, suffix.start, s1, lo, mid) <==> la(s1) by {
            lemma_lang_exactly(t, e, min, host, suffix.start, s1);
        }
        assert forall|s2: Seq<u8>|
            #![trigger lb(s2)]
            #![trigger walks(host, suffix.start, x, s2, mid, hi)]
            walks(host, suffix.start, x, s2, mid, hi) <==> lb(s2) by {
            lemma_lang_optionals(t1, e, greedy, more, host, x, s2);
        }
        lemma_lang_pair(host, prefix.start, suffix.start, x, lo, mid, hi, la, lb, s);
        lemma_between_split(l, min, more, s);
        if walks(host, prefix.start, x, s, lo, hi) {
            let k = choose|k: int| 0 <= k <= s.len() && #[trigger] la(s.take(k)) && lb(s.skip(k));
            assert(power_of(l, min, s.take(k)) && between_of(l, 0, more, s.skip(k)));
        }
        if between_of(l, min, min + more, s) {
            let k = choose|k: int|
                0 <= k <= s.len() && #[trigger] power_of(l, min, s.take(k)) && between_of(
                    l,
                    0,
                    more,
                    s.skip(k),
                );
            assert(la(s.take(k)) && lb(s.skip(k)));
        }
    }
}

/// The fragment of a repetition of at least `n` times reads at least
/// `n` texts that the expression matches, one after the other.
pub proof fn lemma_lang_at_least(
    t: Seq<StateModel>,
    e: Hir,
    greedy: bool,
    n: nat,
    host: Seq<StateModel>,
    x: u32,
    s: Seq<u8>,
)
    requires
        spec_at_least(t, e, greedy, n) is Ok,
        hosts(
            host,
            spec_at_least(t, e, greedy, n)->Ok_0.0,
            spec_at_least(t, e, greedy, n)->Ok_0.1.end,
            x,
            t.len() as int,
            spec_at_least(t, e, greedy, n)->Ok_0.0.len() as int,
        ),
    ensures
        walks(
            host,
            spec_at_least(t, e, greedy, n)->Ok_0.1.start,
            x,
            s,
            t.len() as int,
            spec_at_least(t, e, greedy, n)->Ok_0.0.len() as int,
        ) <==> at_least_of(language(e), n, s),
    decreases e, 3nat, 0nat,
{
    let lo = t.len() as int;
    let l = language(e);
    let last = spec_at_least(t, e, greedy, n)->Ok_0.0;
    if n == 0 {
        lemma_fan_start(t, greedy);
        let (t1, u) = spec_union(t, greedy)->Ok_0;
        lemma_shape_compile(t1, e);
        let (t2, r) = spec_compile(t1, e)->Ok_0;
        let inner = t1.len() as int;
        let hi = t2.len() as int;
        lemma_two_alternates(!greedy, r.start, x);
        assert(host[lo] == spec_patch(last, u.start, x)[lo]);
        assert(t2[lo] == t1[lo]);
        assert(loops(host, u.start, r.start, x));
        assert forall|q: int| inner <= q < hi implies #[trigger] host[q] == spec_patch(
            t2,
            r.end,
            u.start,
        )[q] by {
            assert(host[q] == spec_patch(last, u.start, x)[q]);
        }
        assert(hosts(host, t2, r.end, u.start, inner, hi));
        lemma_hosted_confined(host, t2, r.end, u.start, inner, hi);
        assert forall|s1: Seq<u8>|
            #![trigger l(s1)]
            #![trigger walks(host, r.start, u.start, s1, inner, hi)]
            walks(host, r.start, u.start, s1, inner, hi) <==> l(s1) by {
            lemma_lang_compile(t1, e, host, u.start, s1);
        }
        if walks(host, u.start, x, s, lo, hi) {
            let steps = choose|steps: nat| walk(host, u.start, x, s, lo, hi, steps);
            let times = lemma_loop_sound(host, u.start, r.start, x, l, inner, hi, lo, hi, s, steps);
        }
        if at_least_of(l, 0, s) {
            let times = choose|times: nat| 0 <= times && #[trigger] power_of(l, times, s);
            lemma_loop_complete(host, u.start, r.start, x, l, inner, hi, lo, hi, s, times);
        }
    } else if n == 1 {
        lemma_shape_compile(t, e);
        let (t1, r) = spec_compile(t, e)->Ok_0;
        lemma_fan_start(t1, greedy);
        let (t2, u) = spec_union(t1, greedy)->Ok_0;
        let mid = t1.len() as int;
        let hi = t2.len() as int;
        lemma_two_alternates(!greedy, r.start, x);
        assert(host[mid] == spec_patch(last, u.start, x)[mid]);
        assert(loops(host, u.start, r.start, x));
        assert forall|q: int| lo <= q < mid implies #[trigger] host[q] == spec_patch(
            t1,
            r.end,
            u.start,
        )[q] by {
            assert(host[q] == spec_patch(last, u.start, x)[q]);
            assert(t2[q] == t1[q]);
        }
        assert(hosts(host, t1, r.end, u.start, lo, mid));
        lemma_hosted_confined(host, t1, r.end, u.start, lo, mid);
        assert forall|s1: Seq<u8>|
            #![trigger l(s1)]
            #![trigger walks(host, r.start, u.start, s1, lo, mid)]
            walks(host, r.start, u.start, s1, lo, mid) <==> l(s1) by {
            lemma_lang_compile(t, e, host, u.start, s1);
        }
        lemma_lang_plus(host, r.start, u.start, x, l, lo, hi, s);
    } else {
        let fewer = (n - 1) as nat;
        lemma_shape_exactly(t, e, fewer);
        let (t1, prefix) = spec_exactly(t, e, fewer)->Ok_0;
        lemma_shape_compile(t1, e);
        let (t2, copy) = spec_compile(t1, e)->Ok_0;
        lemma_fan_start(t2, greedy);
        let (t3, u) = spec_union(t2, greedy)->Ok_0;
        let mid = t1.len() as int;
        let mid2 = t2.len() as int;
        let hi = t3.len() as int;
        lemma_two_alternates(!greedy, copy.start, x);
        assert(host[mid2] == spec_patch(last, u.start, x)[mid2]);
        assert(loops(host, u.start, copy.start, x));
        assert forall|q: int| lo <= q < mid implies #[trigger] host[q] == spec_patch(
            t1,
            prefix.end,
            copy.start,
        )[q] by {
            assert(host[q] == spec_patch(last, u.start, x)[q]);
            assert(t3[q] == t2[q]);
            assert(t2[q] == t1[q]);
        }
        assert forall|q: int| mid <= q < mid2 implies #[trigger] host[q] == spec_patch(
            t2,
            copy.end,
            u.start,
        )[q] by {
            assert(host[q] == spec_patch(last, u.start, x)[q]);
            assert(t3[q] == t2[q]);
        }
        assert(hosts(host, t1, prefix.end, copy.start, lo, mid));
        assert(hosts(host, t2, copy.end, u.start, mid, mid2));
        lemma_hosted_confined(host, t1, prefix.end, copy.start, lo, mid);
        lemma_hosted_confined(host, t2, copy.end, u.start, mid, mid2);
        assert forall|s1: Seq<u8>|
            #![trigger l(s1)]
            #![trigger walks(host, copy.start, u.start, s1, mid, mid2)]
            walks(host, copy.start, u.start, s1, mid, mid2) <==> l(s1) by {
            lemma_lang_compile(t1, e, host, u.start, s1);
        }
        let la = |s1: Seq<u8>| power_of(l, fewer, s1);
        let lb = repeated(l);
        assert forall|s1: Seq<u8>|
            #![trigger la(s1)]
            #![trigger walks(host, prefix.start, copy.start, s1, lo, mid)]
            walks(host, prefix.start, copy.start, s1, lo, mid) <==> la(s1) by {
            lemma_lang_exactly(t, e, fewer, host, copy.start, s1);
        }
        assert forall|s2: Seq<u8>|
            #![trigger lb(s2)]
            #![trigger walks(host, copy.start, x, s2, mid, hi)]
            walks(host, copy.start, x, s2, mid, hi) <==> lb(s2) by {
            lemma_lang_plus(host, copy.start, u.start, x, l, mid, hi, s2);
        }
        lemma_lang_plus(host, copy.start, u.start, x, l, mid, hi, s);
        lemma_lang_pair(host, prefix.start, copy.start, x, lo, mid, hi, la, lb, s);
        lemma_at_least_split(l, fewer, s);
        if walks(host, prefix.start, x, s, lo, hi) {
            let k = choose|k: int| 0 <= k <= s.len() && #[trigger] la(s.take(k)) && lb(s.skip(k));
            assert(power_of(l, fewer, s.take(k)) && at_least_of(l, 1, s.skip(k)));
        }
        if at_least_of(l, fewer + 1, s) {
            let k = choose|k: int|
                0 <= k <= s.len() && #[trigger] power_of(l, fewer, s.take(k)) && at_least_of(
                    l,
                    1,
                    s.skip(k),
                );
            assert(la(s.take(k)) && lb(s.skip(k)));
        }
    }
}

/// The fragment of a repetition reads what the repetition matches.
pub proof fn lemma_lang_repetition(
    t: Seq<StateModel>,
    rep: Repetition,
    host: Seq<StateModel>,
    x: u32,
    s: Seq<u8>,
)
    requires
        spec_repetition(t, rep) is Ok,
        hosts(
            host,
            spec_repetition(t, rep)->Ok_0.0,
            spec_repetition(t, rep)->Ok_0.1.end,
            x,
            t.len() as int,
            spec_repetition(t, rep)->Ok_0.0.len() as int,
        ),
    ensures
        walks(
            host,
            spec_repetition(t, rep)->Ok_0.1.start,
            x,
            s,
            t.len() as int,
            spec_repetition(t, rep)->Ok_0.0.len() as int,
        ) <==> matches(Hir::Repetition(rep), s),
    decreases rep, 0nat, 0nat,
{
    let l = language(*rep.hir);
    match rep.kind {
        RepetitionKind::ZeroOrOne => {
            lemma_lang_zero_or_one(t, *rep.hir, rep.greedy, host, x, s);
            lemma_between_one(l, s);
        },
        RepetitionKind::ZeroOrMore => {
            lemma_lang_at_least(t, *rep.hir, rep.greedy, 0, host, x, s);
        },
        RepetitionKind::OneOrMore => {
            lemma_lang_at_least(t, *rep.hir, rep.greedy, 1, host, x, s);
        },
        RepetitionKind::Range(RepetitionRange::Exactly(n)) => {
            lemma_lang_exactly(t, *rep.hir, n as nat, host, x, s);
        },
        RepetitionKind::Range(RepetitionRange::AtLeast(n)) => {
            lemma_lang_at_least(t, *rep.hir, rep.greedy, n as nat, host, x, s);
        },
        RepetitionKind::Range(RepetitionRange::Bounded(min, max)) => {
            lemma_lang_bounded(t, *rep.hir, rep.greedy, min as nat, max as nat, host, x, s);
        },
    }
}

/// The branches from `i` on of an alternation read what one of the
/// expressions from `i` on matches.
pub proof fn lemma_lang_alternation_rest(
    t: Seq<StateModel>,
    exprs: Seq<Hir>,
    i: int,
    lo: int,
    ends: Seq<u32>,
    host: Seq<StateModel>,
    x: u32,
)
    requires
        0 <= i <= exprs.len(),
        fan(t, lo, ends),
        apart(ends),
        spec_alternation_rest(t, exprs, i, lo as u32, ends) is Ok,
        hosts(
            host,
            spec_alternation_rest(t, exprs, i, lo as u32, ends)->Ok_0.0,
            spec_alternation_rest(t, exprs, i, lo as u32, ends)->Ok_0.1.end,
            x,
            lo,
            spec_alternation_rest(t, exprs, i, lo as u32, ends)->Ok_0.0.len() as int,
        ),
    ensures
        ({
            let join = spec_alternation_rest(t, exprs, i, lo as u32, ends)->Ok_0.1.end;
            &&& branched(host, t, lo, ends, join, any_from(languages(exprs), i))
            &&& host[join as int] == (StateModel::Empty { next: x })
            &&& spec_alternation_rest(t, exprs, i, lo as u32, ends)->Ok_0.0.len() == join + 1
        }),
    decreases exprs, exprs.len() - i, 0nat,
{
    let ls = languages(exprs);
    let l = any_from(ls, i);
    if i >= exprs.len() {
        lemma_branched_join(host, t, lo, ends, x);
        lemma_branched_same(host, t, lo, ends, t.len() as u32, nothing(), l);
    } else {
        lemma_shape_compile(t, exprs[i]);
        let (t1, r) = spec_compile(t, exprs[i])->Ok_0;
        lemma_fan_step(t, lo, ends, t1, r);
        lemma_apart_push(t, lo, ends, r.end);
        let t2 = spec_patch(t1, lo as u32, r.start);
        let more = ends.push(r.end);
        let join = spec_alternation_rest(t2, exprs, i + 1, lo as u32, more)->Ok_0.1.end;
        lemma_lang_alternation_rest(t2, exprs, i + 1, lo, more, host, x);
        let la = language(exprs[i]);
        let lb = any_from(ls, i + 1);
        assert(ls[i] == la);
        lemma_branched_hosts(host, t, lo, ends, t1, r, join, lb);
        assert forall|s1: Seq<u8>|
            #![trigger la(s1)]
            #![trigger walks(host, r.start, join, s1, t.len() as int, t1.len() as int)]
            walks(host, r.start, join, s1, t.len() as int, t1.len() as int) <==> la(s1) by {
            lemma_lang_compile(t, exprs[i], host, join, s1);
        }
        lemma_branched_step(host, t, lo, ends, t1, r, join, la, lb);
        assert forall|s: Seq<u8>|
            #![trigger either(la, lb)(s)]
            #![trigger l(s)]
            either(la, lb)(s) <==> l(s) by {
            if la(s) {
                assert(0 <= i <= i < ls.len() && ls[i](s));
            }
            if lb(s) {
                let j = choose|j: int| 0 <= i + 1 <= j < ls.len() && #[trigger] ls[j](s);
                assert(0 <= i <= j < ls.len() && ls[j](s));
            }
            if l(s) {
                let j = choose|j: int| 0 <= i <= j < ls.len() && #[trigger] ls[j](s);
                if j > i {
                    assert(0 <= i + 1 <= j < ls.len() && ls[j](s));
                }
            }
        }
        lemma_branched_same(host, t, lo, ends, join, either(la, lb), l);
    }
}

/// The fragment of an alternation reads what one of its expressions
/// matches.
pub proof fn lemma_lang_alternation(
    t: Seq<StateModel>,
    exprs: Seq<Hir>,
    host: Seq<StateModel>,
    x: u32,
    s: Seq<u8>,
)
    requires
        spec_alternation(t, exprs) is Ok,
        hosts(
            host,
            spec_alternation(t, exprs)->Ok_0.0,
            spec_alternation(t, exprs)->Ok_0.1.end,
            x,
            t.len() as int,
            spec_alternation(t, exprs)->Ok_0.0.len() as int,
        ),
    ensures
        walks(
            host,
            spec_alternation(t, exprs)->Ok_0.1.start,
            x,
            s,
            t.len() as int,
            spec_alternation(t, exprs)->Ok_0.0.len() as int,
        ) <==> any_of(languages(exprs), 0, s),
    decreases exprs, exprs.len() + 1, 0nat,
{
    let lo = t.len() as int;
    lemma_fan_start(t, true);
    let (t1, u) = spec_union(t, true)->Ok_0;
    let none = Seq::<u32>::empty();
    let (t2, r) = spec_alternation_rest(t1, exprs, 0, u.start, none)->Ok_0;
    lemma_shape_alternation_rest(t1, exprs, 0, lo, none);
    lemma_lang_alternation_rest(t1, exprs, 0, lo, none, host, x);
    let l = any_from(languages(exprs), 0);
    lemma_lang_fan(host, t1, lo, r.end, x, t2.len() as int, l, s);
}

/// A walk that reads nothing is a path of empty transitions, and such a
/// path is a walk that reads nothing.
pub proof fn lemma_walk_path(t: Seq<StateModel>, a: u32, b: u32, s: Seq<u8>, n: nat)
    requires
        s.len() == 0,
    ensures
        walk(t, a, b, s, 0, t.len() as int, n) <==> eps_path(t, a, b, n),
    decreases n,
{
    let hi = t.len() as int;
    if n > 0 {
        let k = (n - 1) as nat;
        if walk(t, a, b, s, 0, hi, n) {
            let c = choose|c: u32| eps_edge(t, a, c) && walk(t, c, b, s, 0, hi, k);
            lemma_walk_path(t, c, b, s, k);
            assert(eps_edge(t, a, c) && eps_path(t, c, b, k));
        }
        if eps_path(t, a, b, n) {
            let c = choose|c: u32| eps_edge(t, a, c) && eps_path(t, c, b, k);
            lemma_walk_path(t, c, b, s, k);
            assert(eps_edge(t, a, c) && walk(t, c, b, s, 0, hi, k));
        }
    }
}

/// A walk that reads something is a walk that reads all but the last
/// byte, a transition that reads the last byte, and a walk that reads
/// nothing.
pub proof fn lemma_walk_last(
    t: Seq<StateModel>,
    a: u32,
    b: u32,
    s: Seq<u8>,
    lo: int,
    hi: int,
    n: nat,
) -> (r: (nat, u32, u32))
    requires
        walk(t, a, b, s, lo, hi, n),
        s.len() > 0,
    ensures
        r.0 < n,
        walk(t, a, r.1, s.drop_last(), lo, hi, r.0),
        lo <= r.1 < hi,
        reads(t, r.1, s.last(), r.2),
        walk(t, r.2, b, Seq::<u8>::empty(), lo, hi, (n - r.0 - 1) as nat),
    decreases n,
{
    let k = (n - 1) as nat;
    if exists|c: u32| eps_edge(t, a, c) && walk(t, c, b, s, lo, hi, k) {
        let c = choose|c: u32| eps_edge(t, a, c) && walk(t, c, b, s, lo, hi, k);
        let (m, from, to) = lemma_walk_last(t, c, b, s, lo, hi, k);
        assert(eps_edge(t, a, c) && walk(t, c, from, s.drop_last(), lo, hi, m));
        (m + 1, from, to)
    } else {
        let c = choose|c: u32| reads(t, a, s[0], c) && walk(t, c, b, s.drop_first(), lo, hi, k);
        if s.len() == 1 {
            assert(s.drop_last() =~= Seq::<u8>::empty());
            assert(s.drop_first() =~= Seq::<u8>::empty());
            (0, a, c)
        } else {
            let rest = s.drop_first();
            let (m, from, to) = lemma_walk_last(t, c, b, rest, lo, hi, k);
            assert(s.drop_last().drop_first() =~= rest.drop_last());
            assert(s.drop_last()[0] == s[0]);
            assert(rest.last() == s.last());
            assert(reads(t, a, s.drop_last()[0], c) && walk(
                t,
                c,
                from,
                s.drop_last().drop_first(),
                lo,
                hi,
                m,
            ));
            (m + 1, from, to)
        }
    }
}

/// The states that the automaton may be in after it has read `s` are the
/// states that a walk from state 0 leads to that reads `s`.
pub proof fn lemma_after_walks(t: Seq<StateModel>, s: Seq<u8>, b: u32)
    ensures
        after(t, s).contains(b) <==> walks(t, 0, b, s, 0, t.len() as int),
    decreases s.len(),
{
    let hi = t.len() as int;
    let none = Seq::<u8>::empty();
    if s.len() == 0 {
        if after(t, s).contains(b) {
            let a = choose|a: u32| set![0u32].contains(a) && eps_reach(t, a, b);
            let n = choose|n: nat| eps_path(t, 0, b, n);
            lemma_walk_path(t, 0, b, s, n);
        }
        if walks(t, 0, b, s, 0, hi) {
            let n = choose|n: nat| walk(t, 0, b, s, 0, hi, n);
            lemma_walk_path(t, 0, b, s, n);
            assert(eps_reach(t, 0, b));
            assert(set![0u32].contains(0u32) && eps_reach(t, 0, b));
        }
    } else {
        let before = s.drop_last();
        let from = step_set(t, after(t, before), s.last());
        if after(t, s).contains(b) {
            let to = choose|to: u32| from.contains(to) && eps_reach(t, to, b);
            let a = choose|a: u32| after(t, before).contains(a) && reads(t, a, s.last(), to);
            lemma_after_walks(t, before, a);
            let n1 = choose|n1: nat| walk(t, 0, a, before, 0, hi, n1);
            let n3 = choose|n3: nat| eps_path(t, to, b, n3);
            lemma_walk_path(t, to, b, none, n3);
            let one = seq![s.last()];
            assert(one.drop_first() =~= none);
            assert(reads(t, a, one[0], to) && walk(t, to, to, one.drop_first(), 0, hi, 0));
            assert(walk(t, a, to, one, 0, hi, 1));
            lemma_walk_join(t, 0, a, to, before, one, 0, hi, n1, 1);
            lemma_walk_join(t, 0, to, b, before + one, none, 0, hi, n1 + 1, n3);
            assert((before + one) + none =~= s);
        }
        if walks(t, 0, b, s, 0, hi) {
            let n = choose|n: nat| walk(t, 0, b, s, 0, hi, n);
            let (m, a, to) = lemma_walk_last(t, 0, b, s, 0, hi, n);
            assert(walks(t, 0, a, before, 0, hi));
            lemma_after_walks(t, before, a);
            assert(after(t, before).contains(a) && reads(t, a, s.last(), to));
            assert(from.contains(to));
            lemma_walk_path(t, to, b, none, (n - m - 1) as nat);
            assert(eps_reach(t, to, b));
            assert(from.contains(to) && eps_reach(t, to, b));
        }
    }
}

/// A walk to the last of its states, if no transition leads on from
/// there, passes through the states before it alone.
pub proof fn lemma_walk_sink(
    t: Seq<StateModel>,
    a: u32,
    x: u32,
    s: Seq<u8>,
    lo: int,
    n: nat,
)
    requires
        walk(t, a, x, s, lo, x + 1, n),
        (x as int) < t.len(),
        t[x as int] is Match,
    ensures
        walk(t, a, x, s, lo, x as int, n),
    decreases n,
{
    let hi = x + 1;
    let mid = x as int;
    if n > 0 {
        let k = (n - 1) as nat;
        if exists|c: u32| eps_edge(t, a, c) && walk(t, c, x, s, lo, hi, k) {
            let c = choose|c: u32| eps_edge(t, a, c) && walk(t, c, x, s, lo, hi, k);
            lemma_walk_sink(t, c, x, s, lo, k);
            assert(eps_edge(t, a, c) && walk(t, c, x, s, lo, mid, k));
        } else {
            let c = choose|c: u32| reads(t, a, s[0], c) && walk(t, c, x, s.drop_first(), lo, hi, k);
            lemma_walk_sink(t, c, x, s.drop_first(), lo, k);
            assert(reads(t, a, s[0], c) && walk(t, c, x, s.drop_first(), lo, mid, k));
        }
    }
}

/// The automaton of an expression accepts what the expression matches.
pub proof fn lemma_accepts_matches(e: Hir, s: Seq<u8>)
    requires
        spec_from_hir(e) is Ok,
    ensures
        nfa_accepts(spec_from_hir(e)->Ok_0, s) <==> matches(e, s),
{
    let (t0, first) = spec_empty(Seq::<StateModel>::empty())->Ok_0;
    lemma_shape_compile(t0, e);
    let (t1, r) = spec_compile(t0, e)->Ok_0;
    let (t2, last) = spec_add(t1, StateModel::Match)->Ok_0;
    let m = last.start;
    let mid = t1.len() as int;
    let hi = t2.len() as int;
    let host = spec_from_hir(e)->Ok_0;
    assert(host == spec_patch(spec_patch(t2, 0, r.start), r.end, m));
    assert(host.len() == hi);
    assert(host[0] == (StateModel::Empty { next: r.start }));
    assert(host[mid] is Match);
    assert forall|q: int| 1 <= q < mid implies #[trigger] host[q] == spec_patch(t1, r.end, m)[q] by {
        assert(t2[q] == t1[q]);
    }
    assert(hosts(host, t1, r.end, m, 1, mid));
    lemma_hosted_confined(host, t1, r.end, m, 1, mid);
    lemma_lang_compile(t0, e, host, m, s);
    assert forall|q: u32| (q as int) < host.len() && #[trigger] host[q as int] is Match implies q
        == m by {
        if 1 <= q < mid {
            assert(host[q as int] == spec_patch(t1, r.end, m)[q as int]);
            assert(!(t1[q as int] is Match));
        }
    }
    lemma_after_walks(host, s, m);
    if nfa_accepts(host, s) {
        let q = choose|q: u32|
            after(host, s).contains(q) && (q as int) < host.len() && host[q as int] is Match;
        assert(q == m);
        let n = choose|n: nat| walk(host, 0, m, s, 0, hi, n);
        lemma_walk_sink(host, 0, m, s, 0, n);
        assert(n > 0);
        let k = (n - 1) as nat;
        assert(!(s.len() > 0 && exists|c: u32|
            reads(host, 0, s[0], c) && walk(host, c, m, s.drop_first(), 0, mid, k)));
        let c = choose|c: u32| eps_edge(host, 0, c) && walk(host, c, m, s, 0, mid, k);
        assert(c == r.start);
        lemma_walk_stays(host, r.start, m, s, 0, mid, 1, mid, k);
        assert(walks(host, r.start, m, s, 1, mid));
    }
    if matches(e, s) {
        let k = choose|k: nat| walk(host, r.start, m, s, 1, mid, k);
        lemma_walk_wider(host, r.start, m, s, 1, mid, 0, hi, k);
        assert(eps_edge(host, 0, r.start) && walk(host, r.start, m, s, 0, hi, k));
        assert(walk(host, 0, m, s, 0, hi, k + 1));
        assert(after(host, s).contains(m) && (m as int) < host.len() && host[m as int] is Match);
    }
}

/// Whether the automaton with the table `t` accepts just what `e`
/// matches.
pub open spec fn recognizes(t: Seq<StateModel>, e: Hir) -> bool {
    forall|s: Seq<u8>| #![trigger nfa_accepts(t, s)] #![trigger matches(e, s)]
        nfa_accepts(t, s) <==> matches(e, s)
}

/// The automaton of an expression accepts just what the expression
/// matches.
pub proof fn lemma_recognizes(e: Hir)
    requires
        spec_from_hir(e) is Ok,
    ensures
        recognizes(spec_from_hir(e)->Ok_0, e),
{
    let t = spec_from_hir(e)->Ok_0;
    assert forall|s: Seq<u8>| #![trigger nfa_accepts(t, s)] #![trigger matches(e, s)]
        nfa_accepts(t, s) <==> matches(e, s) by {
        lemma_accepts_matches(e, s);
    }
}

/// What a search reports with a deterministic automaton that accepts
/// what the automaton of an expression accepts: the length of the longest
/// beginning of the input, but for the empty one, that the expression
/// matches, and nothing if it matches none.
pub proof fn lemma_search_matches(
    e: Hir,
    t: Seq<StateModel>,
    dfa: DFA,
    input: Seq<u8>,
    end: Option<usize>,
)
    requires
        recognizes(t, e),
        same_language(dfa, t),
        dfa.is_longest_match(input, end),
    ensures
        match end {
            Some(n) => {
                &&& 1 <= n <= input.len()
                &&& matches(e, input.take(n as int))
                &&& forall|j: int| n < j <= input.len() ==> !#[trigger] matches(e, input.take(j))
            },
            None => forall|j: int| 1 <= j <= input.len() ==> !#[trigger] matches(e, input.take(j)),
        },
{
    assert forall|j: int| dfa.accepts(input.take(j)) == #[trigger] matches(e, input.take(j)) by {
        assert(dfa.accepts(input.take(j)) == nfa_accepts(t, input.take(j)));
    }
}

/// Whether a rule that yields nothing yields nothing for want of room.
pub open spec fn only_too_large(built: Built) -> bool {
    built is Err ==> built->Err_0 is TooLarge
}

/// Expressions without an anchor or a word boundary from `i` on are each
/// without one.
pub proof fn lemma_no_fault_from(exprs: Seq<Hir>, i: int, j: int)
    requires
        0 <= i <= j < exprs.len(),
        first_fault_from(exprs, i) is None,
    ensures
        first_fault(exprs[j]) is None,
        first_fault_from(exprs, j + 1) is None,
    decreases j - i,
{
    if i < j {
        lemma_no_fault_from(exprs, i + 1, j);
    }
}

/// A chain of byte ranges fails only for want of room.
pub proof fn lemma_large_sequence_rest(
    t: Seq<StateModel>,
    ranges: Seq<(u8, u8)>,
    i: int,
    start: u32,
    end: u32,
)
    ensures
        only_too_large(spec_sequence_rest(t, ranges, i, start, end)),
    decreases ranges.len() - i,
{
    if 0 <= i < ranges.len() {
        if spec_range(t, ranges[i]) is Ok {
            let (t1, r) = spec_range(t, ranges[i])->Ok_0;
            lemma_large_sequence_rest(spec_patch(t1, end, r.start), ranges, i + 1, start, r.end);
        }
    }
}

/// A sequence of byte ranges fails only for want of room.
pub proof fn lemma_large_sequence(t: Seq<StateModel>, ranges: Seq<(u8, u8)>)
    ensures
        only_too_large(spec_sequence(t, ranges)),
{
    if ranges.len() > 0 && spec_range(t, ranges[0]) is Ok {
        let (t1, r) = spec_range(t, ranges[0])->Ok_0;
        lemma_large_sequence_rest(t1, ranges, 1, r.start, r.end);
    }
}

/// An alternation of sequences of byte ranges fails only for want of
/// room.
pub proof fn lemma_large_sequences_rest(
    t: Seq<StateModel>,
    seqs: Seq<Seq<(u8, u8)>>,
    i: int,
    union: u32,
    ends: Seq<u32>,
)
    ensures
        only_too_large(spec_sequences_rest(t, seqs, i, union, ends)),
    decreases seqs.len() - i,
{
    if 0 <= i < seqs.len() {
        lemma_large_sequence(t, seqs[i]);
        if spec_sequence(t, seqs[i]) is Ok {
            let (t1, r) = spec_sequence(t, seqs[i])->Ok_0;
            lemma_large_sequences_rest(
                spec_patch(t1, union, r.start),
                seqs,
                i + 1,
                union,
                ends.push(r.end),
            );
        }
    }
}

/// An alternation of sequences of byte ranges fails only for want of
/// room.
pub proof fn lemma_large_sequences(t: Seq<StateModel>, seqs: Seq<Seq<(u8, u8)>>)
    ensures
        only_too_large(spec_sequences(t, seqs)),
{
    if spec_union(t, true) is Ok {
        let (t1, u) = spec_union(t, true)->Ok_0;
        lemma_large_sequences_rest(t1, seqs, 0, u.start, Seq::empty());
    }
}

/// An expression without an anchor and without a word boundary fails to
/// compile only for want of room.
pub proof fn lemma_large_compile(t: Seq<StateModel>, e: Hir)
    requires
        first_fault(e) is None,
    ensures
        only_too_large(spec_compile(t, e)),
    decreases e, 0nat, 0nat,
{
    match e {
        Hir::Literal(Literal::Unicode(c)) => {
            lemma_large_sequence(t, literal_ranges(c));
        },
        Hir::Class(Class::Bytes(ranges)) => {
            lemma_large_sequences(t, byte_class_sequences(ranges@));
        },
        Hir::Class(Class::Unicode(ranges)) => {
            lemma_large_sequences(t, class_sequences(ranges@));
        },
        Hir::Repetition(rep) => {
            lemma_large_repetition(t, rep);
        },
        Hir::Group(inner) => {
            lemma_large_compile(t, *inner);
        },
        Hir::Concat(exprs) => {
            lemma_large_concat(t, exprs@);
        },
        Hir::Alternation(exprs) => {
            lemma_large_alternation(t, exprs@);
        },
        _ => {},
    }
}

/// A repetition of such an expression fails only for want of room.
pub proof fn lemma_large_repetition(t: Seq<StateModel>, rep: Repetition)
    requires
        first_fault(*rep.hir) is None,
    ensures
        only_too_large(spec_repetition(t, rep)),
    decreases rep, 0nat, 0nat,
{
    match rep.kind {
        RepetitionKind::ZeroOrOne => {
            lemma_large_zero_or_one(t, *rep.hir, rep.greedy);
        },
        RepetitionKind::ZeroOrMore => {
            lemma_large_at_least(t, *rep.hir, rep.greedy, 0);
        },
        RepetitionKind::OneOrMore => {
            lemma_large_at_least(t, *rep.hir, rep.greedy, 1);
        },
        RepetitionKind::Range(RepetitionRange::Exactly(n)) => {
            lemma_large_exactly(t, *rep.hir, n as nat);
        },
        RepetitionKind::Range(RepetitionRange::AtLeast(n)) => {
            lemma_large_at_least(t, *rep.hir, rep.greedy, n as nat);
        },
        RepetitionKind::Range(RepetitionRange::Bounded(min, max)) => {
            lemma_large_bounded(t, *rep.hir, rep.greedy, min as nat, max as nat);
        },
    }
}

/// A chain of such expressions fails only for want of room.
pub proof fn lemma_large_concat_rest(
    t: Seq<StateModel>,
    exprs: Seq<Hir>,
    i: int,
    start: u32,
    end: u32,
)
    requires
        0 <= i,
        first_fault_from(exprs, i) is None,
    ensures
        only_too_large(spec_concat_rest(t, exprs, i, start, end)),
    decreases exprs, exprs.len() - i, 0nat,
{
    if i < exprs.len() {
        lemma_no_fault_from(exprs, i, i);
        lemma_large_compile(t, exprs[i]);
        if spec_compile(t, exprs[i]) is Ok {
            let (t1, r) = spec_compile(t, exprs[i])->Ok_0;
            lemma_large_concat_rest(spec_patch(t1, end, r.start), exprs, i + 1, start, r.end);
        }
    }
}

/// A concatenation of such expressions fails only for want of room.
pub proof fn lemma_large_concat(t: Seq<StateModel>, exprs: Seq<Hir>)
    requires
        first_fault_from(exprs, 0) is None,
    ensures
        only_too_large(spec_concat(t, exprs)),
    decreases exprs, exprs.len() + 1, 0nat,
{
    if exprs.len() > 0 {
        lemma_no_fault_from(exprs, 0, 0);
        lemma_large_compile(t, exprs[0]);
        if spec_compile(t, exprs[0]) is Ok {
            let (t1, r) = spec_compile(t, exprs[0])->Ok_0;
            lemma_large_concat_rest(t1, exprs, 1, r.start, r.end);
        }
    }
}

/// The branches of an alternation of such expressions fail only for want
/// of room.
pub proof fn lemma_large_alternation_rest(
    t: Seq<StateModel>,
    exprs: Seq<Hir>,
    i: int,
    union: u32,
    ends: Seq<u32>,
)
    requires
        0 <= i,
        first_fault_from(exprs, i) is None,
    ensures
        only_too_large(spec_alternation_rest(t, exprs, i, union, ends)),
    decreases exprs, exprs.len() - i, 0nat,
{
    if i < exprs.len() {
        lemma_no_fault_from(exprs, i, i);
        lemma_large_compile(t, exprs[i]);
        if spec_compile(t, exprs[i]) is Ok {
            let (t1, r) = spec_compile(t, exprs[i])->Ok_0;
            lemma_large_alternation_rest(
                spec_patch(t1, union, r.start),
                exprs,
                i + 1,
                union,
                ends.push(r.end),
            );
        }
    }
}

/// An alternation of such expressions fails only for want of room.
pub proof fn lemma_large_alternation(t: Seq<StateModel>, exprs: Seq<Hir>)
    requires
        first_fault_from(exprs, 0) is None,
    ensures
        only_too_large(spec_alternation(t, exprs)),
    decreases exprs, exprs.len() + 1, 0nat,
{
    if spec_union(t, true) is Ok {
        let (t1, u) = spec_union(t, true)->Ok_0;
        lemma_large_alternation_rest(t1, exprs, 0, u.start, Seq::empty());
    }
}

/// Further copies of such an expression fail only for want of room.
pub proof fn lemma_large_copies_rest(t: Seq<StateModel>, e: Hir, left: nat, start: u32, end: u32)
    requires
        first_fault(e) is None,
    ensures
        only_too_large(spec_copies_rest(t, e, left, start, end)),
    decreases e, 1nat, left,
{
    if left > 0 {
        lemma_large_compile(t, e);
        if spec_compile(t, e) is Ok {
            let (t1, r) = spec_compile(t, e)->Ok_0;
            lemma_large_copies_rest(spec_patch(t1, end, r.start), e, (left - 1) as nat, start, r.end);
        }
    }
}

/// Copies of such an expression in a row fail only for want of room.
pub proof fn lemma_large_exactly(t: Seq<StateModel>, e: Hir, n: nat)
    requires
        first_fault(e) is None,
    ensures
        only_too_large(spec_exactly(t, e, n)),
    decreases e, 2nat, n,
{
    if n > 0 {
        lemma_large_compile(t, e);
        if spec_compile(t, e) is Ok {
            let (t1, r) = spec_compile(t, e)->Ok_0;
            lemma_large_copies_rest(t1, e, (n - 1) as nat, r.start, r.end);
        }
    }
}

/// An optional copy of such an expression fails only for want of room.
pub proof fn lemma_large_zero_or_one(t: Seq<StateModel>, e: Hir, greedy: bool)
    requires
        first_fault(e) is None,
    ensures
        only_too_large(spec_zero_or_one(t, e, greedy)),
    decreases e, 1nat, 0nat,
{
    if spec_union(t, greedy) is Ok {
        let (t1, u) = spec_union(t, greedy)->Ok_0;
        lemma_large_compile(t1, e);
    }
}

/// Further optional copies of such an expression fail only for want of
/// room.
pub proof fn lemma_large_optionals_rest(
    t: Seq<StateModel>,
    e: Hir,
    greedy: bool,
    left: nat,
    start: u32,
    end: u32,
)
    requires
        first_fault(e) is None,
    ensures
        only_too_large(spec_optionals_rest(t, e, greedy, left, start, end)),
    decreases e, 2nat, left,
{
    if left > 0 {
        lemma_large_zero_or_one(t, e, greedy);
        if spec_zero_or_one(t, e, greedy) is Ok {
            let (t1, r) = spec_zero_or_one(t, e, greedy)->Ok_0;
            lemma_large_optionals_rest(
                spec_patch(t1, end, r.start),
                e,
                greedy,
                (left - 1) as nat,
                start,
                r.end,
            );
        }
    }
}

/// Optional copies of such an expression in a row fail only for want of
/// room.
pub proof fn lemma_large_optionals(t: Seq<StateModel>, e: Hir, greedy: bool, count: nat)
    requires
        first_fault(e) is None,
    ensures
        only_too_large(spec_optionals(t, e, greedy, count)),
    decreases e, 3nat, count,
{
    if count > 0 {
        lemma_large_zero_or_one(t, e, greedy);
        if spec_zero_or_one(t, e, greedy) is Ok {
            let (t1, r) = spec_zero_or_one(t, e, greedy)->Ok_0;
            lemma_large_optionals_rest(t1, e, greedy, (count - 1) as nat, r.start, r.end);
        }
    }
}

/// A bounded repetition of such an expression fails only for want of
/// room.
pub proof fn lemma_large_bounded(t: Seq<StateModel>, e: Hir, greedy: bool, min: nat, max: nat)
    requires
        first_fault(e) is None,
    ensures
        only_too_large(spec_bounded(t, e, greedy, min, max)),
    decreases e, 4nat, 0nat,
{
    lemma_large_exactly(t, e, min);
    if spec_exactly(t, e, min) is Ok && min != max {
        let (t1, prefix) = spec_exactly(t, e, min)->Ok_0;
        lemma_large_optionals(
            t1,
            e,
            greedy,
            if max > min {
                (max - min) as nat
            } else {
                0
            },
        );
    }
}

/// A repetition without an upper bound of such an expression fails only
/// for want of room.
pub proof fn lemma_large_at_least(t: Seq<StateModel>, e: Hir, greedy: bool, n: nat)
    requires
        first_fault(e) is None,
    ensures
        only_too_large(spec_at_least(t, e, greedy, n)),
    decreases e, 3nat, 0nat,
{
    if n == 0 {
        if spec_union(t, greedy) is Ok {
            let (t1, u) = spec_union(t, greedy)->Ok_0;
            lemma_large_compile(t1, e);
        }
    } else if n == 1 {
        lemma_large_compile(t, e);
    } else {
        lemma_large_exactly(t, e, (n - 1) as nat);
        if spec_exactly(t, e, (n - 1) as nat) is Ok {
            let (t1, prefix) = spec_exactly(t, e, (n - 1) as nat)->Ok_0;
            lemma_large_compile(t1, e);
        }
    }
}

/// Whether an expression compiles: it fails with the message of its first
/// anchor or word boundary if it holds one anywhere, and else only if its
/// automaton would be too large.
pub proof fn lemma_faults(e: Hir)
    ensures
        first_fault(e) matches Some(fault) ==> spec_from_hir(e) == Err::<Seq<StateModel>, Fault>(
            fault,
        ),
        first_fault(e) is None && spec_from_hir(e) is Err ==> spec_from_hir(e)->Err_0 is TooLarge,
{
    let (t0, s) = spec_empty(Seq::<StateModel>::empty())->Ok_0;
    if first_fault(e) is None {
        lemma_large_compile(t0, e);
    }
}

/// Whether `s` is the UTF-8 encoding of a character of one of the
/// ranges.
pub open spec fn in_class(ranges: Seq<ClassUnicodeRange>, s: Seq<u8>) -> bool {
    exists|i: int|
        0 <= i < ranges.len() && encodes_in((#[trigger] ranges[i]).start, ranges[i].end, s)
}

/// What is in one of the sequences of two lists is in one of the
/// sequences of the first or of the second list.
pub proof fn lemma_in_sequences_add(a: Seq<Seq<(u8, u8)>>, b: Seq<Seq<(u8, u8)>>, s: Seq<u8>)
    ensures
        in_sequences(a + b, s) <==> in_sequences(a, s) || in_sequences(b, s),
{
    let all = a + b;
    if in_sequences(all, s) {
        let i = choose|i: int| 0 <= i < all.len() && in_sequence(#[trigger] all[i], s);
        if i < a.len() {
            assert(all[i] == a[i]);
        } else {
            assert(all[i] == b[i - a.len()]);
        }
    }
    if in_sequences(a, s) {
        let i = choose|i: int| 0 <= i < a.len() && in_sequence(#[trigger] a[i], s);
        assert(all[i] == a[i]);
    }
    if in_sequences(b, s) {
        let i = choose|i: int| 0 <= i < b.len() && in_sequence(#[trigger] b[i], s);
        assert(all[a.len() + i] == b[i]);
    }
}

/// The byte range sequences of a class of characters hold just the
/// encodings of the characters of the class.
pub proof fn lemma_class_sequences(ranges: Seq<ClassUnicodeRange>, s: Seq<u8>)
    requires
        class_law(ranges),
    ensures
        in_sequences(class_sequences(ranges), s) <==> in_class(ranges, s),
    decreases ranges.len(),
{
    if ranges.len() > 0 {
        let before = ranges.drop_last();
        let last = ranges.last();
        assert forall|i: int| 0 <= i < before.len() implies sequences_law(
            (#[trigger] before[i]).start,
            before[i].end,
        ) by {
            assert(before[i] == ranges[i]);
        }
        lemma_class_sequences(before, s);
        lemma_in_sequences_add(class_sequences(before), utf8_sequences(last.start, last.end), s);
        assert(ranges[ranges.len() - 1] == last);
        assert(sequences_law(last.start, last.end));
        if in_class(before, s) {
            let i = choose|i: int|
                0 <= i < before.len() && encodes_in((#[trigger] before[i]).start, before[i].end, s);
            assert(before[i] == ranges[i]);
        }
        if in_class(ranges, s) {
            let i = choose|i: int|
                0 <= i < ranges.len() && encodes_in((#[trigger] ranges[i]).start, ranges[i].end, s);
            if i < before.len() {
                assert(before[i] == ranges[i]);
            }
        }
    }
}

/// A class of characters whose byte range sequences are as their law
/// says matches just the encodings of its characters.
pub proof fn lemma_class_matches(ranges: Vec<ClassUnicodeRange>, s: Seq<u8>)
    requires
        class_laws(Hir::Class(Class::Unicode(ranges))),
    ensures
        matches(Hir::Class(Class::Unicode(ranges)), s) <==> in_class(ranges@, s),
{
    lemma_class_sequences(ranges@, s);
}

} // verus!
