use ucd_generate::line_writer::LineWriter;
use ucd_generate::text::{decimal_string, digit_str};
use ucd_generate::writer::{
    pack_str, rust_const_name, rust_module_name, smallest_unsigned_type, starts_with,
    WriterBuilder,
};

fn unpack_str(mut encoded: u64) -> String {
    let mut value = String::new();
    while encoded != 0 {
        value.push((encoded & 0xFF) as u8 as char);
        encoded = encoded >> 8;
    }
    value
}

const HEADER: &str = "/* DO NOT EDIT THIS FILE. IT WAS AUTOMATICALLY GENERATED BY:\n *\n *  ucd-generate test\n *\n * ucd-generate is available on crates.io.\n */\n";

fn builder(name: &str) -> WriterBuilder {
    let mut builder = WriterBuilder::new(name);
    builder.invocation("ucd-generate test");
    builder
}

#[test]
fn packed() {
    assert_eq!("G", unpack_str(pack_str("G").unwrap()));
    assert_eq!("GG", unpack_str(pack_str("GG").unwrap()));
    assert_eq!("YEO", unpack_str(pack_str("YEO").unwrap()));
    assert_eq!("ABCDEFGH", unpack_str(pack_str("ABCDEFGH").unwrap()));
    assert_eq!("", unpack_str(pack_str("").unwrap()));

    assert!(pack_str("ABCDEFGHI").is_err());
    assert!(pack_str("AB\x00CD").is_err());
}

#[test]
fn packed_values_and_messages() {
    assert_eq!(pack_str("G").unwrap(), 0x47);
    assert_eq!(pack_str("AB").unwrap(), 0x4241);
    assert_eq!(pack_str("ABCDEFGH").unwrap(), 0x4847464544434241);
    assert_eq!(
        pack_str("ABCDEFGHI").unwrap_err().message(),
        "cannot encode string \"ABCDEFGHI\" (too long)"
    );
    assert_eq!(
        pack_str("AB\x00CD").unwrap_err().message(),
        "cannot encode string \"AB\\0CD\" (contains NUL byte)"
    );
}

#[test]
fn names_of_constants_and_modules() {
    assert_eq!(rust_const_name("v1.2_beta"), "V1_2_BETA");
    assert_eq!(rust_const_name("Grapheme_Cluster_Break"), "GRAPHEME_CLUSTER_BREAK");
    assert_eq!(rust_module_name("General_Category"), "general_category");
    assert!(starts_with("TABLE_NAME", "TABLE"));
    assert!(!starts_with("TABLE", "TABLE_NAME"));
    assert!(starts_with("anything", ""));
    assert!(!starts_with("abc", "abd"));
}

#[test]
fn unsigned_types_at_their_bounds() {
    assert_eq!(smallest_unsigned_type(0), "u8");
    assert_eq!(smallest_unsigned_type(255), "u8");
    assert_eq!(smallest_unsigned_type(256), "u16");
    assert_eq!(smallest_unsigned_type(65535), "u16");
    assert_eq!(smallest_unsigned_type(65536), "u32");
    assert_eq!(smallest_unsigned_type(4294967295), "u32");
    assert_eq!(smallest_unsigned_type(4294967296), "u64");
}

#[test]
fn decimal_numerals() {
    assert_eq!(decimal_string(0), "0");
    assert_eq!(decimal_string(7), "7");
    assert_eq!(decimal_string(10), "10");
    assert_eq!(decimal_string(1114111), "1114111");
    assert_eq!(decimal_string(u64::MAX), "18446744073709551615");
    assert_eq!(digit_str(9), "9");
}

#[test]
fn line_writer_fills_and_trims_lines() {
    let mut w = LineWriter::new(String::new());
    w.write_str("abc, ");
    w.write_str("def, ");
    w.flush();
    assert_eq!(w.output(), "  abc, def,\n");
    let long = "x".repeat(70);
    w.write_str(&long);
    w.write_str("0123456789, ");
    assert_eq!(w.output(), format!("  abc, def,\n  {}\n", long));
    w.indent("    ");
    w.write("raw\n");
    assert_eq!(w.output(), format!("  abc, def,\n  {}\n  0123456789,\nraw\n", long));
    w.write_str("y");
    assert_eq!(w.into_inner(), format!("  abc, def,\n  {}\n  0123456789,\nraw\n    y\n", long));
}

#[test]
fn line_writer_keeps_a_line_of_the_full_width() {
    let mut w = LineWriter::new(String::new());
    w.write_str(&"a".repeat(76));
    w.write_str("b");
    assert_eq!(w.output(), "");
    w.write_str("c");
    assert_eq!(w.output(), format!("  {}b\n", "a".repeat(76)));
    assert_eq!(w.into_inner(), format!("  {}b\n  c\n", "a".repeat(76)));
}

#[test]
fn string_to_string_table() {
    let mut w = builder("test").from_writer(String::new());
    let map = vec![
        ("k".to_string(), "v".to_string()),
        ("quote\"d".to_string(), "new\nline".to_string()),
    ];
    w.string_to_string("ab.c", &map).unwrap();
    let expected = format!(
        "{}\npub const AB_C: &'static [(&'static str, &'static str)] = &[\n  (\"k\", \"v\"), (\"quote\\\"d\", \"new\\nline\"),\n];\n",
        HEADER
    );
    assert_eq!(w.output(), expected);
}

#[test]
fn header_is_written_once() {
    let mut w = builder("test").from_writer(String::new());
    w.string_to_string("a", &vec![]).unwrap();
    w.string_to_string("b", &vec![]).unwrap();
    let table = |name: &str| {
        format!("\npub const {}: &'static [(&'static str, &'static str)] = &[\n];\n", name)
    };
    assert_eq!(w.into_inner(), format!("{}{}{}", HEADER, table("A"), table("B")));
}

#[test]
fn string_tables_refuse_fst_and_c() {
    let mut w = builder("test").from_fst_dir("out", String::new());
    assert!(w.writes_fsts());
    let err = w.string_to_string("a", &vec![]).unwrap_err();
    assert_eq!(err.message(), "cannot emit string->string map as an FST");
    let err = w.string_to_string_to_string("a", &vec![]).unwrap_err();
    assert_eq!(err.message(), "cannot emit string->string map as an FST");
    let err = w.codepoint_to_codepoints("a", &vec![]).unwrap_err();
    assert_eq!(err.message(), "cannot emit codepoint->codepoints map as an FST");
    let err = w.multi_codepoint_to_codepoint("a", &vec![]).unwrap_err();
    assert_eq!(err.message(), "cannot emit codepoint multimaps as an FST");
    assert_eq!(w.into_inner(), "");

    let mut b = builder("test");
    b.emit_c(true);
    let mut w = b.from_writer(String::new());
    let err = w.string_to_string("a", &vec![]).unwrap_err();
    assert_eq!(err.message(), "cannot emit a string->string map as C code");
    let err = w.string_to_string_to_string("a", &vec![]).unwrap_err();
    assert_eq!(err.message(), "cannot emit a string->string map as C code");
    assert_eq!(w.into_inner(), "");
}

#[test]
fn string_to_string_to_string_table() {
    let mut w = builder("test").from_writer(String::new());
    let map = vec![
        ("a".to_string(), vec![("x".to_string(), "1".to_string())]),
        ("b".to_string(), vec![]),
    ];
    w.string_to_string_to_string("nested", &map).unwrap();
    let expected = format!(
        "{}\npub const NESTED: &'static [(&'static str, &'static [(&'static str, &'static str)])] = &[\n  (\"a\", &[(\"x\", \"1\"), ]),\n\n  (\"b\", &[]),\n];\n",
        HEADER
    );
    assert_eq!(w.output(), expected);
}

#[test]
fn names_are_sorted() {
    let mut w = builder("test").from_writer(String::new());
    let names = vec!["Zl".to_string(), "Lu".to_string(), "age.1".to_string()];
    w.names(&names).unwrap();
    let expected = format!(
        "{}\npub const BY_NAME: &'static [(&'static str, &'static [(u32, u32)])] = &[\n  (\"Lu\", LU), (\"Zl\", ZL), (\"age.1\", AGE_1),\n];\n",
        HEADER
    );
    assert_eq!(w.into_inner(), expected);
}

#[test]
fn names_with_character_literals_and_tries() {
    let mut b = builder("test");
    b.char_literals(true);
    let mut w = b.from_writer(String::new());
    w.names(&vec!["N".to_string()]).unwrap();
    assert!(w.output().contains(
        "pub const BY_NAME: &'static [(&'static str, &'static [(char, char)])] = &[\n"
    ));
    let mut b = builder("test");
    b.trie_set(true);
    let mut w = b.from_writer(String::new());
    w.names(&vec!["N".to_string()]).unwrap();
    assert!(w.output().contains(
        "pub const BY_NAME: &'static [(&'static str, &'static ::ucd_trie::TrieSet)] = &[\n"
    ));
    let mut w = builder("test").from_fst_dir("dir", String::new());
    w.names(&vec!["N".to_string()]).unwrap();
    assert!(w.output().contains("pub const BY_NAME: &'static [(&'static str, ::fst::Set)] = &[\n"));
}

#[test]
fn codepoint_to_codepoints_table() {
    let mut w = builder("test").from_writer(String::new());
    let map = vec![(0x41, vec![0x61]), (0xDF, vec![0x53, 0x53]), (0xD800, vec![1])];
    w.codepoint_to_codepoints("upper", &map).unwrap();
    let expected = format!(
        "{}\npub const UPPER: &'static [(u32, &'static [u32])] = &[\n  (65, &[97]), (223, &[83, 83, ]), (55296, &[1]),\n];\n",
        HEADER
    );
    assert_eq!(w.into_inner(), expected);
}

#[test]
fn character_literals_leave_surrogates_out() {
    let mut b = builder("test");
    b.char_literals(true);
    let mut w = b.from_writer(String::new());
    let map = vec![(0x41, vec![0x61]), (0xD800, vec![0x41]), (0x42, vec![0xDFFF]), (0x27, vec![0x0A])];
    w.multi_codepoint_to_codepoint("m", &map).unwrap();
    let expected = format!(
        "{}\npub const M: &'static [(char, &'static [char])] = &[\n  ('A', &['a']), ('\\'', &['\\n']),\n];\n",
        HEADER
    );
    assert_eq!(w.into_inner(), expected);
}

#[test]
fn c_tables() {
    let mut b = WriterBuilder::new("case");
    b.emit_c(true).invocation("ucd-generate test");
    let mut w = b.from_writer(String::new());
    let map = vec![(0x41, vec![0x61]), (0xDF, vec![0x53, 0x53])];
    w.codepoint_to_codepoints("upper", &map).unwrap();
    let out = w.into_inner();
    assert!(out.starts_with("/* DO NOT EDIT THIS FILE."));
    assert!(out.contains(" * Note: The final item of each array is padding, so you must\n"));
    assert!(out.contains("#ifndef UCD_GENERATE_DATA_LINKAGE\n#define UCD_GENERATE_DATA_LINKAGE static\n#endif\n\n"));
    assert!(out.ends_with(
        "\nstruct case_entry {\n  unsigned int key;\n  unsigned int num_vals;\n  unsigned int vals[2];\n};\n\n#define CASE_UPPER_SIZE 2\n\nUCD_GENERATE_DATA_LINKAGE const struct case_entry CASE_UPPER[CASE_UPPER_SIZE + 1] = {\n  {65, 1, 97}, {223, 2, 83, 83},\n};\n"
    ));
}

#[test]
fn c_names_and_empty_arrays() {
    let mut b = WriterBuilder::new("gc");
    b.emit_c(true).table_name("");
    let mut w = b.from_writer(String::new());
    w.names(&vec![]).unwrap();
    let out = w.into_inner();
    assert!(out.ends_with(
        "\nstruct name_entry {\n  char const *name;\n  unsigned int table_size;\n  const unsigned int (*table)[2];\n};\n\n#define BY_NAME_SIZE 0\n\nUCD_GENERATE_DATA_LINKAGE const struct name_entry BY_NAME[BY_NAME_SIZE + 1] = {\n  0\n};\n"
    ));

    let mut b = WriterBuilder::new("gc");
    b.emit_c(true);
    let mut w = b.from_writer(String::new());
    w.names(&vec!["Lu".to_string(), "gc_x".to_string()]).unwrap();
    let out = w.into_inner();
    assert!(out.contains("struct gc_name_entry {\n"));
    assert!(out.contains("#define GC_BY_NAME_SIZE 2\n"));
    assert!(out.ends_with("  {\"Lu\", GC_LU_SIZE, GC_LU}, {\"gc_x\", GC_GC_X_SIZE, GC_GC_X},\n};\n"));
}

#[test]
fn builder_settings_are_kept_by_the_writer() {
    let mut b = WriterBuilder::new("straße");
    b.emit_c(true);
    let mut w = b.from_writer(String::new());
    w.names(&vec!["x".to_string()]).unwrap();
    assert!(w.output().contains("#define STRASSE_BY_NAME_SIZE 1\n"));
    let mut b = WriterBuilder::new("a");
    b.emit_c(true).table_name("X").columns(100);
    let mut w = b.from_writer(String::from("before\n"));
    w.names(&vec![]).unwrap();
    let out = w.into_inner();
    assert!(out.starts_with("before\n/* DO NOT EDIT"));
    assert!(out.contains("#define X_BY_NAME_SIZE 0\n"));
}

#[test]
fn sets_of_codepoints_as_ranges() {
    let mut w = builder("test").from_writer(String::new());
    w.ranges("Lu", &vec![0x43, 0x41, 0x42, 0x41, 0x5A, 0x10FFFF, 0x10FFFE]).unwrap();
    let expected = format!(
        "{}\npub const LU: &'static [(u32, u32)] = &[\n  (65, 67), (90, 90), (1114110, 1114111),\n];\n",
        HEADER
    );
    assert_eq!(w.into_inner(), expected);
}

#[test]
fn sets_of_codepoints_as_c_ranges() {
    let mut b = WriterBuilder::new("gc");
    b.emit_c(true);
    let mut w = b.from_writer(String::new());
    w.ranges("Lu", &vec![0x41, 0x42]).unwrap();
    assert!(w.output().ends_with(
        "#define GC_LU_SIZE 1\n\nUCD_GENERATE_DATA_LINKAGE const unsigned int GC_LU[GC_LU_SIZE + 1][2] = {\n  {65, 66},\n};\n"
    ));
}

#[test]
fn sets_of_codepoints_as_tries() {
    let mut b = builder("test");
    b.trie_set(true);
    let mut w = b.from_writer(String::new());
    w.ranges("Lu", &vec![0x41, 0x42]).unwrap();
    let out = w.into_inner();
    assert!(out.contains("pub const LU: &'static ::ucd_trie::TrieSet = &::ucd_trie::TrieSet {\n"));
    assert!(out.contains("  tree1_level1: &[\n    0, 0x6, 0, 0, 0,"));
    assert!(out.contains("  tree2_level1: &[\n  ],\n  tree2_level2: &[\n  ],\n"));
    assert!(out.ends_with("  tree3_level3: &[\n  ],\n};\n"));
    let mut w = b.from_writer(String::new());
    assert!(w.ranges("bad", &vec![0x110000]).is_err());
    let mut c = WriterBuilder::new("t");
    c.trie_set(true).emit_c(true);
    let mut w = c.from_writer(String::new());
    assert_eq!(
        w.ranges("Lu", &vec![0x41]).unwrap_err().message(),
        "cannot emit a trie set as C code"
    );
}

#[test]
fn sets_of_codepoints_as_transducers() {
    let mut w = builder("test").from_fst_dir("out", String::new());
    w.ranges("Lu", &vec![0x42, 0x41]).unwrap();
    assert_eq!(w.files().len(), 1);
    assert_eq!(w.files()[0].0, "lu.fst");
    let set = fst::Set::from_bytes(w.files()[0].1.clone()).unwrap();
    assert!(set.contains([0, 0, 0, 0x41]));
    assert!(set.contains([0, 0, 0, 0x42]));
    assert_eq!(set.len(), 2);
    let expected = format!(
        "{}\nlazy_static! {{\n  pub static ref LU: ::fst::Set = \n    ::fst::Set::from(::fst::raw::Fst::from_static_slice(\n      include_bytes!(\"lu.fst\")).unwrap());\n}}\n",
        HEADER
    );
    assert_eq!(w.into_inner(), expected);
}

#[test]
fn maps_as_transducers() {
    let mut w = builder("test").from_fst_dir("out", String::new());
    w.codepoint_to_codepoint("m", &vec![(0x41, 0x61), (0x100, 0x101)]).unwrap();
    w.codepoint_to_string("names", &vec![(0x1100, "G".to_string())]).unwrap();
    w.string_to_codepoint("by_name", &vec![("a".to_string(), 1), ("b".to_string(), 2)]).unwrap();
    w.string_to_u64("nums", &vec![("k".to_string(), 1 << 40)]).unwrap();
    w.ranges_to_unsigned_integer("ages", &vec![(1, 7), (2, 7)]).unwrap();
    let names: Vec<&str> = w.files().iter().map(|f| f.0.as_str()).collect();
    assert_eq!(names, vec!["m.fst", "names.fst", "by_name.fst", "nums.fst", "ages.fst"]);
    let map = fst::Map::from_bytes(w.files()[0].1.clone()).unwrap();
    assert_eq!(map.get([0, 0, 0, 0x41]), Some(0x61));
    assert_eq!(map.get([0, 0, 1, 0]), Some(0x101));
    let map = fst::Map::from_bytes(w.files()[1].1.clone()).unwrap();
    assert_eq!(map.get([0, 0, 0x11, 0]), Some(0x47));
    let map = fst::Map::from_bytes(w.files()[2].1.clone()).unwrap();
    assert_eq!(map.get("b"), Some(2));
    let map = fst::Map::from_bytes(w.files()[3].1.clone()).unwrap();
    assert_eq!(map.get("k"), Some(1 << 40));
    assert!(w.output().contains("  pub static ref M: ::fst::Map = \n"));
    assert!(w.codepoint_to_string("long", &vec![(1, "ABCDEFGHI".to_string())]).is_err());
    assert!(w.codepoint_to_codepoint("unsorted", &vec![(2, 0), (1, 0)]).is_err());
}

#[test]
fn maps_as_tables() {
    let mut w = builder("test").from_writer(String::new());
    w.codepoint_to_codepoint("m", &vec![(0x41, 0x61)]).unwrap();
    w.codepoint_to_string("names", &vec![(0x1100, "G".to_string())]).unwrap();
    w.string_to_codepoint("by_name", &vec![("a".to_string(), 1)]).unwrap();
    w.string_to_u64("nums", &vec![("k".to_string(), 300)]).unwrap();
    w.ranges_to_unsigned_integer("ages", &vec![(1, 7), (2, 7), (3, 300), (5, 300), (6, 300)])
        .unwrap();
    let expected = format!(
        "{}\npub const M: &'static [(u32, u32)] = &[\n  (65, 97),\n];\n\npub const NAMES: &'static [(u32, &'static str)] = &[\n  (4352, \"G\"),\n];\n\npub const BY_NAME: &'static [(&'static str, u32)] = &[\n  (\"a\", 1),\n];\n\npub const NUMS: &'static [(&'static str, u64)] = &[\n  (\"k\", 300),\n];\n\npub const AGES: &'static [(u32, u32, u16)] = &[\n  (1, 2, 7), (3, 3, 300), (5, 6, 300),\n];\n",
        HEADER
    );
    assert_eq!(w.into_inner(), expected);
}

#[test]
fn maps_refuse_c() {
    let mut b = WriterBuilder::new("t");
    b.emit_c(true);
    let mut w = b.from_writer(String::new());
    assert_eq!(
        w.string_to_u64("n", &vec![]).unwrap_err().message(),
        "cannot emit a string->u64 map as C code"
    );
    assert_eq!(w.output(), "");
    assert_eq!(
        w.ranges_to_enum("n", &vec![]).unwrap_err().message(),
        "cannot emit a range->enum map as C code"
    );
    assert_eq!(w.output(), "");
    assert_eq!(
        w.codepoint_to_string("n", &vec![]).unwrap_err().message(),
        "cannot emit a codepoint->string map as C code"
    );
    assert_eq!(
        w.string_to_codepoint("n", &vec![]).unwrap_err().message(),
        "cannot emit a string->codepoint map as C code"
    );
    assert_eq!(
        w.ranges_to_unsigned_integer("n", &vec![]).unwrap_err().message(),
        "cannot emit a range->unsigned int map as C code"
    );
    assert_eq!(
        w.dense_dfa("n", 2, vec![], vec![]).unwrap_err().message(),
        "cannot emit a dense dfa as C code"
    );
    assert_eq!(
        w.sparse_regex("n", 2, vec![], vec![], vec![], vec![]).unwrap_err().message(),
        "cannot emit a sparse regex as C code"
    );
    assert!(w.codepoint_to_codepoint("n", &vec![(1, 2)]).is_ok());
}

#[test]
fn enumerations() {
    let mut w = builder("test").from_writer(String::new());
    let map = vec![
        ("A".to_string(), vec![1, 2, 3, 10]),
        ("B".to_string(), vec![4, 3]),
    ];
    w.ranges_to_enum("jt", &map).unwrap();
    let expected = format!(
        "{}\npub const JT_ENUM: &'static [&'static str] = &[\n  \"A\", \"B\",\n];\n\npub const JT: &'static [(u32, u32, u8)] = &[\n  (1, 2, 0), (3, 4, 1), (10, 10, 0),\n];\n",
        HEADER
    );
    assert_eq!(w.into_inner(), expected);
}

#[test]
fn automata_as_static_items() {
    let mut w = builder("test").from_dfa_dir("out", String::new());
    w.dense_dfa("WORD", 2, vec![1], vec![2]).unwrap();
    let names: Vec<(&str, &[u8])> = w.files().iter().map(|f| (f.0.as_str(), &f.1[..])).collect();
    assert_eq!(names, vec![("word.bigendian.dfa", &[1u8][..]), ("word.littleendian.dfa", &[2u8][..])]);
    let item = |file: &str| {
        format!(
            "lazy_static! {{\n  pub static ref WORD: ::regex_automata::DenseDFA<&'static [u16], u16> = {{\n    #[repr(C)]\n    struct Aligned<B: ?Sized> {{\n        _align: [u16; 0],\n        bytes: B,\n    }}\n    \n    static ALIGNED: &'static Aligned<[u8]> = &Aligned {{\n        _align: [],\n        bytes: *include_bytes!(\"{}\"),\n    }};\n    \n    unsafe {{\n      ::regex_automata::DenseDFA::from_bytes(&ALIGNED.bytes)\n    }}\n  }};\n}}\n",
            file
        )
    };
    let expected = format!(
        "{}\n#[cfg(target_endian = \"big\")]\n{}\n#[cfg(target_endian = \"little\")]\n{}",
        HEADER,
        item("word.bigendian.dfa"),
        item("word.littleendian.dfa")
    );
    assert_eq!(w.into_inner(), expected);

    let mut w = builder("test").from_dfa_dir("out", String::new());
    w.sparse_regex("RE", 4, vec![1], vec![2], vec![3], vec![4]).unwrap();
    let names: Vec<&str> = w.files().iter().map(|f| f.0.as_str()).collect();
    assert_eq!(
        names,
        vec!["re.fwd.bigendian.dfa", "re.rev.bigendian.dfa", "re.fwd.littleendian.dfa", "re.rev.littleendian.dfa"]
    );
    let out = w.into_inner();
    assert!(out.contains("  pub static ref RE: ::regex_automata::Regex<::regex_automata::SparseDFA<&'static [u8], u32>> = {\n    let fwd =\n"));
    assert!(out.contains("        _align: [u8; 0],\n"));
    assert!(out.contains("        bytes: *include_bytes!(\"re.rev.littleendian.dfa\"),\n"));
    assert!(out.ends_with("    ;\n    ::regex_automata::Regex::from_dfas(fwd, rev)\n  };\n}\n"));
    let mut w = builder("test").from_dfa_dir("out", String::new());
    w.dense_regex("RE", 8, vec![], vec![], vec![], vec![]).unwrap();
    assert!(w.output().contains("::regex_automata::Regex<::regex_automata::DenseDFA<&'static [u64], u64>>"));
    let mut w = builder("test").from_dfa_dir("out", String::new());
    w.sparse_dfa("D", 1, vec![], vec![]).unwrap();
    assert!(w.output().contains("::regex_automata::SparseDFA<&'static [u8], u8> = {\n"));
}

#[test]
fn transducers_refuse_keys_that_do_not_increase() {
    let mut w = builder("test").from_fst_dir("out", String::new());
    assert!(w.codepoint_to_codepoint("twice", &vec![(1, 0), (1, 0)]).is_err());
    assert!(w.ranges_to_unsigned_integer("back", &vec![(0x100, 7), (0xFF, 7)]).is_err());
    assert!(w.ranges_to_unsigned_integer("twice", &vec![(0x100, 7), (0x100, 8)]).is_err());
    assert!(w.codepoint_to_codepoint("up", &vec![(0xFF, 0), (0x100, 0), (0x10000, 1)]).is_ok());
    assert!(w.ranges_to_unsigned_integer("up", &vec![(0, 7), (0x1000000, 7), (u32::MAX, 8)]).is_ok());
    assert!(w.ranges("any", &vec![u32::MAX, 0, 0x100, 0xFF, 0, 0x1000000]).is_ok());
    assert!(w.ranges("none", &vec![]).is_ok());
}

#[test]
fn tries_refuse_numbers_beyond_the_last_codepoint() {
    let mut b = builder("test");
    b.trie_set(true);
    let mut w = b.from_writer(String::new());
    assert!(w.ranges("far", &vec![0x41, 0x110000]).is_err());
    assert!(w.ranges("near", &vec![0x41, 0x10FFFF]).is_ok());
}
