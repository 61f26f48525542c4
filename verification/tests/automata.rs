use regex_syntax::hir::{self, HirKind};
use regex_syntax::Parser;
use ucd_generate::determinize::DFABuilder;
use ucd_generate::dfa::{DFAState, DFA};
use ucd_generate::dump::{escape, state_status};
use ucd_generate::minimize::Minimizer;
use ucd_generate::nfa::{find_fault, Fault, NFAState, NFA};
use ucd_generate::utf8::encode_utf8;
use ucd_generate::pattern::{
    Class, ClassBytesRange, ClassUnicodeRange, Hir, Literal, Repetition, RepetitionKind,
    RepetitionRange,
};

fn convert(expr: &hir::Hir) -> Hir {
    match expr.kind() {
        HirKind::Empty => Hir::Empty,
        HirKind::Literal(hir::Literal::Unicode(c)) => Hir::Literal(Literal::Unicode(*c)),
        HirKind::Literal(hir::Literal::Byte(b)) => Hir::Literal(Literal::Byte(*b)),
        HirKind::Class(hir::Class::Unicode(cls)) => Hir::Class(Class::Unicode(
            cls.iter()
                .map(|r| ClassUnicodeRange { start: r.start(), end: r.end() })
                .collect(),
        )),
        HirKind::Class(hir::Class::Bytes(cls)) => Hir::Class(Class::Bytes(
            cls.iter()
                .map(|r| ClassBytesRange { start: r.start(), end: r.end() })
                .collect(),
        )),
        HirKind::Anchor(_) => Hir::Anchor,
        HirKind::WordBoundary(_) => Hir::WordBoundary,
        HirKind::Repetition(rep) => Hir::Repetition(Repetition {
            kind: match &rep.kind {
                hir::RepetitionKind::ZeroOrOne => RepetitionKind::ZeroOrOne,
                hir::RepetitionKind::ZeroOrMore => RepetitionKind::ZeroOrMore,
                hir::RepetitionKind::OneOrMore => RepetitionKind::OneOrMore,
                hir::RepetitionKind::Range(hir::RepetitionRange::Exactly(n)) => {
                    RepetitionKind::Range(RepetitionRange::Exactly(*n))
                }
                hir::RepetitionKind::Range(hir::RepetitionRange::AtLeast(n)) => {
                    RepetitionKind::Range(RepetitionRange::AtLeast(*n))
                }
                hir::RepetitionKind::Range(hir::RepetitionRange::Bounded(m, n)) => {
                    RepetitionKind::Range(RepetitionRange::Bounded(*m, *n))
                }
            },
            greedy: rep.greedy,
            hir: Box::new(convert(&rep.hir)),
        }),
        HirKind::Group(group) => Hir::Group(Box::new(convert(&group.hir))),
        HirKind::Concat(exprs) => Hir::Concat(exprs.iter().map(convert).collect()),
        HirKind::Alternation(exprs) => Hir::Alternation(exprs.iter().map(convert).collect()),
    }
}

fn parse(pattern: &str) -> Hir {
    convert(&Parser::new().parse(pattern).unwrap())
}

fn build_automata(pattern: &str) -> (NFA, DFA) {
    let nfa = NFA::from_hir(&parse(pattern)).unwrap();
    let dfa = DFA::from_nfa(&nfa).unwrap();
    (nfa, dfa)
}

fn build_automata_min(pattern: &str) -> DFA {
    let (_, dfa) = build_automata(pattern);
    assert!(dfa.has_match_state());
    Minimizer::new(dfa).run()
}

#[test]
fn single_letter() {
    let dfa = build_automata_min("a");
    assert_eq!(dfa.find(b"a"), Some(1));
    assert_eq!(dfa.find(b"b"), None);
}

#[test]
fn longest_alternative_wins() {
    let dfa = build_automata_min("a|zz|z");
    assert_eq!(dfa.find(b"zz"), Some(2));
    let (_, unminimized) = build_automata("a|zz|z");
    assert_eq!(unminimized.find(b"zz"), Some(2));
    let swapped = build_automata_min("z|zz");
    assert_eq!(swapped.find(b"zz"), Some(2));
}

#[test]
fn two_byte_class() {
    let dfa = build_automata_min(r"[\u{80}-\u{7FF}]");
    assert_eq!(dfa.find("\u{00E9}".as_bytes()), Some(2));
    assert_eq!(dfa.find("\u{0080}".as_bytes()), Some(2));
    assert_eq!(dfa.find("\u{07FF}".as_bytes()), Some(2));
    assert_eq!(dfa.find("\u{0800}".as_bytes()), None);
    assert_eq!(dfa.find("\u{007F}".as_bytes()), None);
}

#[test]
fn scratch() {
    let (_, dfa) = build_automata(grapheme_pattern());
    println!("# dfa states: {}", dfa.states.len());
    println!("# dfa transitions: {}", 256 * dfa.states.len());
    let before = dfa.states.len();
    let min = Minimizer::new(dfa).run();
    println!("# minimal dfa states: {}", min.states.len());
    println!("# minimal dfa transitions: {}", 256 * min.states.len());
    assert!(min.states.len() <= before);
}

const PATTERNS: &[&str] = &[
    "a",
    "a|zz|z",
    "z|zz",
    "(ab)*c",
    "a+b?",
    "a{2,4}",
    "a{3}",
    "a{2,}b",
    "(?:a|b)*?c",
    "x??y",
    r"[\u{80}-\u{7FF}]",
    r"\p{Greek}+",
    "(a|ab)(c|bcd)(d*)",
    "",
];

const INPUTS: &[&str] = &[
    "",
    "a",
    "b",
    "zz",
    "z",
    "ababc",
    "abab",
    "aaaaa",
    "aab",
    "aaab",
    "c",
    "y",
    "xy",
    "\u{00E9}",
    "\u{03B1}\u{03B2}\u{03B3}x",
    "abcd",
    "abcdd",
];

#[test]
fn dead_state_absorbs() {
    for pattern in PATTERNS {
        let (_, dfa) = build_automata(pattern);
        assert!(!dfa.states[0].is_match, "{}", pattern);
        assert!(dfa.states[0].transitions.iter().all(|&to| to == 0), "{}", pattern);
        let min = Minimizer::new(dfa).run();
        assert!(!min.states[0].is_match, "{}", pattern);
        assert!(min.states[0].transitions.iter().all(|&to| to == 0), "{}", pattern);
    }
}

#[test]
fn minimizing_keeps_every_match() {
    for pattern in PATTERNS {
        let (_, dfa) = build_automata(pattern);
        let min = build_automata_min(pattern);
        for input in INPUTS {
            assert_eq!(
                dfa.find(input.as_bytes()),
                min.find(input.as_bytes()),
                "pattern {:?}, input {:?}",
                pattern,
                input
            );
        }
    }
}

#[test]
fn minimizing_twice_changes_nothing() {
    for pattern in PATTERNS {
        let min = build_automata_min(pattern);
        let count = min.states.len();
        let again = Minimizer::new(min).run();
        assert_eq!(again.states.len(), count, "{}", pattern);
    }
}

#[test]
fn minimizing_never_adds_states() {
    for pattern in PATTERNS {
        let (_, dfa) = build_automata(pattern);
        let before = dfa.states.len();
        let min = Minimizer::new(dfa).run();
        assert!(min.states.len() <= before, "{}", pattern);
    }
}

#[test]
fn minimizing_merges_equivalent_states() {
    let (_, dfa) = build_automata("ac|bc");
    assert_eq!(dfa.states.len(), 5);
    let min = Minimizer::new(dfa).run();
    assert_eq!(min.states.len(), 4);
    assert_eq!(min.find(b"ac"), Some(2));
    assert_eq!(min.find(b"bc"), Some(2));
    assert_eq!(min.find(b"cc"), None);
}

#[test]
fn matches_are_the_longest() {
    let dfa = build_automata_min("(ab)*c");
    assert_eq!(dfa.find(b"ababcab"), Some(5));
    assert_eq!(dfa.find(b"c"), Some(1));
    assert_eq!(dfa.find(b"abab"), None);
    let dfa = build_automata_min("a{2,4}");
    assert_eq!(dfa.find(b"a"), None);
    assert_eq!(dfa.find(b"aa"), Some(2));
    assert_eq!(dfa.find(b"aaaaaaa"), Some(4));
    let dfa = build_automata_min("a{2,}b");
    assert_eq!(dfa.find(b"aaaab"), Some(5));
    assert_eq!(dfa.find(b"ab"), None);
    let dfa = build_automata_min("a*?");
    assert_eq!(dfa.find(b"aaa"), Some(3));
    assert_eq!(dfa.find(b""), None);
    let dfa = build_automata_min("x??y|x");
    assert_eq!(dfa.find(b"xy"), Some(2));
    assert_eq!(dfa.find(b"xz"), Some(1));
}

#[test]
fn empty_pattern_matches_no_prefix_of_positive_length() {
    let (nfa, dfa) = build_automata("");
    assert_eq!(nfa.states.len(), 3);
    assert!(dfa.states[dfa.start as usize].is_match);
    assert_eq!(dfa.find(b"abc"), None);
    assert_eq!(dfa.find(b""), None);
}

#[test]
fn anchors_and_word_boundaries_are_refused() {
    let err = NFA::from_hir(&parse("^a")).err().unwrap();
    assert_eq!(err.message(), "anchors are not supported");
    let err = NFA::from_hir(&parse("a$|b")).err().unwrap();
    assert_eq!(err.message(), "anchors are not supported");
    let err = NFA::from_hir(&parse(r"a\b")).err().unwrap();
    assert_eq!(err.message(), "word boundaries are not supported");
    let err = NFA::from_hir(&parse(r"(\B|$)+")).err().unwrap();
    assert_eq!(err.message(), "word boundaries are not supported");
    let none_of = |kind, hir| Hir::Repetition(Repetition { kind, greedy: true, hir: Box::new(hir) });
    let exactly = RepetitionKind::Range(RepetitionRange::Exactly(0));
    let err = NFA::from_hir(&none_of(exactly, Hir::Anchor)).err().unwrap();
    assert_eq!(err.message(), "anchors are not supported");
    let bounded = RepetitionKind::Range(RepetitionRange::Bounded(0, 0));
    let err = NFA::from_hir(&none_of(bounded, Hir::WordBoundary)).err().unwrap();
    assert_eq!(err.message(), "word boundaries are not supported");
    let err = NFA::from_hir(&parse("(?:^){0}")).err().unwrap();
    assert_eq!(err.message(), "anchors are not supported");
    let err = NFA::from_hir(&parse(r"a(?:b|(?:c\b){0,0})*$")).err().unwrap();
    assert_eq!(err.message(), "word boundaries are not supported");
    let exactly = RepetitionKind::Range(RepetitionRange::Exactly(0));
    assert!(NFA::from_hir(&none_of(exactly, parse("ab"))).is_ok());
    let mut nfa = NFA::empty();
    nfa.add_empty();
    assert!(nfa.compile_exactly(&Hir::Anchor, 0).is_err());
    assert!(nfa.compile(&parse("a(?:$){0}")).is_err());
    assert_eq!(nfa.len(), 1);
    assert!(find_fault(&parse("a(?:b|c)*")).is_none());
    assert!(matches!(find_fault(&parse(r"a(?:b|\b)*$")), Some(Fault::WordBoundary)));
    assert!(matches!(find_fault(&parse(r"(?:^){0}\b")), Some(Fault::Anchor)));
}

#[test]
fn thompson_fragments() {
    let nfa = NFA::from_hir(&parse("ab")).unwrap();
    let shape: Vec<String> = nfa
        .states
        .iter()
        .map(|state| match state {
            NFAState::Empty { next } => format!("empty -> {}", next),
            NFAState::Range { start, end, next } => {
                format!("{}-{} -> {}", *start as char, *end as char, next)
            }
            NFAState::Union { alternates, reverse } => {
                format!("union {:?} {}", alternates, reverse)
            }
            NFAState::Match => "match".to_string(),
        })
        .collect();
    assert_eq!(shape, vec!["empty -> 1", "a-a -> 2", "b-b -> 3", "match"]);

    let nfa = NFA::from_hir(&parse("a|b")).unwrap();
    assert!(matches!(&nfa.states[1], NFAState::Union { alternates, reverse: false } if alternates == &vec![2, 3]));
    assert!(matches!(&nfa.states[4], NFAState::Empty { next: 5 }));
    assert!(matches!(&nfa.states[5], NFAState::Match));

    let nfa = NFA::from_hir(&parse("a*?")).unwrap();
    assert!(matches!(&nfa.states[1], NFAState::Union { alternates, reverse: true } if alternates == &vec![3, 2]));
    let nfa = NFA::from_hir(&parse("a*")).unwrap();
    assert!(matches!(&nfa.states[1], NFAState::Union { alternates, reverse: false } if alternates == &vec![2, 3]));
    assert!(nfa.states[1].is_epsilon());
    assert!(!nfa.states[2].is_epsilon());
    assert!(!nfa.states[3].is_epsilon());
}

#[test]
fn empty_classes_match_nothing() {
    let nfa = NFA::from_hir(&Hir::Class(Class::Bytes(vec![]))).unwrap();
    let dfa = DFA::from_nfa(&nfa).unwrap();
    assert_eq!(dfa.start, 0);
    assert_eq!(dfa.states.len(), 1);
    assert!(!dfa.has_match_state());
    assert_eq!(dfa.find(b"a"), None);
    let nfa = NFA::from_hir(&Hir::Alternation(vec![])).unwrap();
    assert!(!DFA::from_nfa(&nfa).unwrap().has_match_state());
}

#[test]
fn builder_and_shortcut_agree() {
    let nfa = NFA::from_hir(&parse("a|zz|z")).unwrap();
    let built = DFABuilder::new(&nfa).build().unwrap();
    let direct = DFA::from_nfa(&nfa).unwrap();
    assert_eq!(built.dump(), direct.dump());
}

#[test]
fn utf8_encodings() {
    for c in ['\0', 'a', '\u{7F}', '\u{80}', '\u{7FF}', '\u{800}', '\u{FFFF}', '\u{10000}', '\u{10FFFF}', 'é', '☃'] {
        let mut buf = [0u8; 4];
        assert_eq!(encode_utf8(c), c.encode_utf8(&mut buf).as_bytes().to_vec());
    }
}

#[test]
fn literals_of_several_bytes() {
    let dfa = build_automata_min("☃+");
    assert_eq!(dfa.find("☃☃x".as_bytes()), Some(6));
    assert_eq!(dfa.find(&"☃".as_bytes()[..2]), None);
}

#[test]
fn classes_beyond_the_basic_plane() {
    let dfa = build_automata_min(r"[\u{1F1E6}-\u{1F1FF}]");
    assert_eq!(dfa.find("\u{1F1E6}".as_bytes()), Some(4));
    assert_eq!(dfa.find("\u{1F1FF}".as_bytes()), Some(4));
    assert_eq!(dfa.find("\u{1F200}".as_bytes()), None);
    assert_eq!(dfa.find("\u{1F1E5}".as_bytes()), None);
    let dfa = build_automata_min(r"[\u{0}-\u{10FFFF}]");
    assert_eq!(dfa.find(&[0xED, 0xA0, 0x80]), None);
    assert_eq!(dfa.find(&[0xED, 0x9F, 0xBF]), Some(3));
    assert_eq!(dfa.find(&[0xC0, 0x80]), None);
    assert_eq!(dfa.find(&[0xF4, 0x90, 0x80, 0x80]), None);
}

#[test]
fn sparse_transitions_are_maximal_ranges() {
    let mut state = DFAState::empty();
    assert_eq!(state.sparse_transitions(), vec![(0, 255, 0)]);
    for b in b'a'..=b'z' {
        state.transitions[b as usize] = 12;
    }
    state.transitions[255] = 3;
    assert_eq!(
        state.sparse_transitions(),
        vec![(0, 96, 0), (97, 122, 12), (123, 254, 0), (255, 255, 3)]
    );
    assert_eq!(state.describe(), "a-z => 12, \\xff => 3");
}

#[test]
fn escapes() {
    assert_eq!(escape(b'a'), "a");
    assert_eq!(escape(b' '), " ");
    assert_eq!(escape(b'~'), "~");
    assert_eq!(escape(b'\n'), "\\n");
    assert_eq!(escape(b'\t'), "\\t");
    assert_eq!(escape(b'\r'), "\\r");
    assert_eq!(escape(b'\\'), "\\\\");
    assert_eq!(escape(b'\''), "\\'");
    assert_eq!(escape(b'"'), "\\\"");
    assert_eq!(escape(0), "\\x00");
    assert_eq!(escape(0x7F), "\\x7f");
    assert_eq!(escape(0xAB), "\\xab");
}

#[test]
fn dump_of_a_small_automaton() {
    let dfa = build_automata_min("a|b+");
    assert_eq!(dfa.dump(), "D 0000: \n> 0001: a => 2, b => 3\n *0002: \n *0003: b => 3\n");
    assert_eq!(state_status(0, 1, &dfa.states[0]), "D ");
    assert_eq!(state_status(1, 1, &dfa.states[2]), ">*");
    assert_eq!(state_status(5, 1, &dfa.states[1]), "  ");
    assert_eq!(state_status(5, 5, &dfa.states[1]), "> ");
    assert_eq!(state_status(1, 5, &dfa.states[2]), " *");
    assert_eq!(state_status(0, 0, &dfa.states[0]), "D ");
}

#[test]
fn set_transition_changes_one_entry() {
    let mut dfa = DFA::empty();
    dfa.states.push(DFAState::empty());
    dfa.set_transition(1, b'x', 1);
    assert_eq!(dfa.states[1].transitions[b'x' as usize], 1);
    assert_eq!(dfa.states[1].transitions.iter().filter(|&&to| to != 0).count(), 1);
    assert!(dfa.states[0].transitions.iter().all(|&to| to == 0));
}

fn grapheme_pattern() -> &'static str {
    r"(?x)
        (?:
            \p{gcb=CR}\p{gcb=LF}
            |
            [\p{gcb=Control}\p{gcb=CR}\p{gcb=LF}]
            |
            \p{gcb=Prepend}*
            (?:
                (?:
                    (?:
                        \p{gcb=L}*
                        (?:\p{gcb=V}+|\p{gcb=LV}\p{gcb=V}*|\p{gcb=LVT})
                        \p{gcb=T}*
                    )
                    |
                    \p{gcb=L}+
                    |
                    \p{gcb=T}+
                )
                |
                \p{gcb=RI}\p{gcb=RI}
                |
                \p{Extended_Pictographic}
                (?:\p{gcb=Extend}*\p{gcb=ZWJ}\p{Extended_Pictographic})*
                |
                [^\p{gcb=Control}\p{gcb=CR}\p{gcb=LF}]
            )
            [\p{gcb=Extend}\p{gcb=ZWJ}\p{gcb=SpacingMark}]*
        )
    "
}

fn graphemes(dfa: &DFA, text: &str) -> Vec<String> {
    let mut bytes = text.as_bytes();
    let mut clusters = vec![];
    while let Some(end) = dfa.find(bytes) {
        clusters.push(std::str::from_utf8(&bytes[..end]).unwrap().to_string());
        bytes = &bytes[end..];
    }
    clusters
}

#[test]
fn ucdtests() {
    let dfa = build_automata_min(grapheme_pattern());
    assert_eq!(Some(1), dfa.find(b"a"));
    let cases: &[&[&str]] = &[
        &[" ", " "],
        &[" \u{308}", " "],
        &[" ", "\r"],
        &["\r\n"],
        &["\r", "\r"],
        &["\n", "\r"],
        &["\r", "a"],
        &["\r", "\u{308}"],
        &["a\u{308}", "b"],
        &["\u{1F1E6}\u{1F1E7}", "\u{1F1E8}"],
        &["\u{1F1E6}\u{1F1E7}", "\u{1F1E8}\u{1F1E9}", "b"],
        &["\u{1100}\u{1161}\u{11A8}", "\u{1100}"],
        &["\u{AC00}\u{11A8}", "\u{1100}"],
        &["\u{AC01}\u{11A8}", "\u{1100}"],
        &["\u{1F476}\u{1F3FF}", "\u{1F476}"],
        &["a\u{1F3FF}", "\u{1F476}"],
        &["\u{1F476}\u{1F3FF}\u{308}\u{200D}\u{1F476}\u{1F3FF}"],
        &["\u{1F6D1}\u{200D}\u{1F6D1}"],
        &["a\u{200D}", "\u{1F6D1}"],
        &["\u{2701}\u{200D}\u{2701}"],
        &["a\u{200D}", "\u{2701}"],
        &["\u{0915}\u{094D}\u{200D}", "\u{0924}"],
        &["\u{0600}a"],
        &["a\u{0903}", "b"],
        &["a", "\u{0600}b"],
    ];
    for case in cases {
        let given: String = case.iter().map(|cluster| cluster.to_string()).collect();
        let got = graphemes(&dfa, &given);
        let expected: Vec<String> = case.iter().map(|cluster| cluster.to_string()).collect();
        assert_eq!(expected, got, "text {:?}", given);
    }
}

#[test]
fn classes_and_literals_of_bytes() {
    let expr = Hir::Concat(vec![
        Hir::Class(Class::Bytes(vec![
            ClassBytesRange { start: 0x00, end: 0x10 },
            ClassBytesRange { start: 0xF0, end: 0xFF },
        ])),
        Hir::Group(Box::new(Hir::Literal(Literal::Byte(0xFF)))),
    ]);
    let nfa = NFA::from_hir(&expr).unwrap();
    let dfa = DFA::from_nfa(&nfa).unwrap();
    let min = Minimizer::new(DFA::from_nfa(&nfa).unwrap()).run();
    for input in [&[0x00u8, 0xFF][..], &[0x10, 0xFF], &[0xF0, 0xFF, 0x00], &[0xFF, 0xFF], &[0x11, 0xFF], &[0xFF], &[0x00, 0xFE]] {
        assert_eq!(dfa.find(input), min.find(input));
    }
    assert_eq!(min.find(&[0xF0, 0xFF, 0x00]), Some(2));
    assert_eq!(min.find(&[0x11, 0xFF]), None);
    assert_eq!(min.find(&[0x00, 0xFE]), None);
}
