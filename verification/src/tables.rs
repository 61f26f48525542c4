//! The tables that a writer writes: sets of codepoints, maps from and to
//! codepoints, and automata.

use vstd::prelude::*;
use vstd::string::*;
use crate::encode::{
    bytes_lt,
    keys_increase,
    lemma_be_bytes_order,
    be_bytes,
    build_fst_map,
    build_fst_set,
    build_trie,
    entry_views,
    fst_map_bytes,
    fst_set_bytes,
    key_views,
    trie_of,
    u32_key,
    TrieModel,
    TrieSet,
};
use crate::error::Error;
use crate::text::{
    debug_str,
    debug_string,
    decimal,
    decimal_string,
    texts,
    texts_increase,
};
use crate::util::{
    is_merged,
    merge_pairs,
    range_values_of,
    ranges_of,
    sorted_of,
    to_range_values,
};
use crate::writer::{
    const_name,
    module_name,
    pack_str,
    packed,
    rust_const_name,
    rust_module_name,
    smallest_unsigned_type,
    unsigned_type,
    OptionsModel,
    Writer,
    WriterModel,
};

verus! {

/// The upper case hexadecimal digit `d`.
pub open spec fn hex_upper_digit(d: nat) -> char {
    if d < 10 {
        (('0' as u8) + d) as char
    } else {
        (('A' as u8) + d - 10) as char
    }
}

/// The hexadecimal numeral of `n`, in upper case.
pub open spec fn hex_upper(n: nat) -> Seq<char>
    decreases n,
{
    if n < 16 {
        seq![hex_upper_digit(n)]
    } else {
        hex_upper(n / 16).push(hex_upper_digit(n % 16))
    }
}

/// The numeral of one hexadecimal digit, in upper case.
pub fn hex_digit_str(d: u64) -> (r: &'static str)
    requires
        d < 16,
    ensures
        r@ == seq![hex_upper_digit(d as nat)],
{
    proof {
        reveal_strlit("0");
        reveal_strlit("1");
        reveal_strlit("2");
        reveal_strlit("3");
        reveal_strlit("4");
        reveal_strlit("5");
        reveal_strlit("6");
        reveal_strlit("7");
        reveal_strlit("8");
        reveal_strlit("9");
        reveal_strlit("A");
        reveal_strlit("B");
        reveal_strlit("C");
        reveal_strlit("D");
        reveal_strlit("E");
        reveal_strlit("F");
    }
    let r = match d {
        0 => "0",
        1 => "1",
        2 => "2",
        3 => "3",
        4 => "4",
        5 => "5",
        6 => "6",
        7 => "7",
        8 => "8",
        9 => "9",
        10 => "A",
        11 => "B",
        12 => "C",
        13 => "D",
        14 => "E",
        _ => "F",
    };
    assert(r@ =~= seq![hex_upper_digit(d as nat)]);
    r
}

/// The hexadecimal numeral of `n`, in upper case.
pub fn hex_upper_string(n: u64) -> (r: String)
    ensures
        r@ == hex_upper(n as nat),
    decreases n,
{
    if n < 16 {
        String::from_str(hex_digit_str(n))
    } else {
        let mut r = hex_upper_string(n / 16);
        r.append(hex_digit_str(n % 16));
        assert(r@ =~= hex_upper((n / 16) as nat).push(hex_upper_digit((n % 16) as nat)));
        r
    }
}

/// The unsigned integer type of `size` bytes.
pub open spec fn uint_type(size: usize) -> Seq<char> {
    if size == 1 {
        "u8"@
    } else if size == 2 {
        "u16"@
    } else if size == 4 {
        "u32"@
    } else {
        "u64"@
    }
}

/// The unsigned integer type of `size` bytes, which is 1, 2, 4 or 8.
pub fn rust_uint_type(size: usize) -> (ty: &'static str)
    requires
        size == 1 || size == 2 || size == 4 || size == 8,
    ensures
        ty@ == uint_type(size),
{
    if size == 1 {
        "u8"
    } else if size == 2 {
        "u16"
    } else if size == 4 {
        "u32"
    } else {
        "u64"
    }
}

/// The texts of the strings that are there.
pub open spec fn option_texts(v: Seq<Option<String>>) -> Seq<Option<Seq<char>>> {
    v.map_values(
        |o: Option<String>|
            match o {
                Some(s) => Some(s@),
                None => None,
            },
    )
}

/// A list of optional strings with one more entry holds one more optional
/// text.
pub proof fn lemma_option_texts_push(
    v: Seq<Option<String>>,
    o: Option<String>,
    want: Seq<Option<Seq<char>>>,
    i: int,
)
    requires
        option_texts(v) == want.take(i),
        0 <= i < want.len(),
        match o {
            Some(s) => want[i] == Some(s@),
            None => want[i] is None,
        },
    ensures
        option_texts(v.push(o)) == want.take(i + 1),
{
    assert(option_texts(v).len() == v.len());
    assert(want.take(i).len() == i);
    let now = option_texts(v.push(o));
    let goal = want.take(i + 1);
    assert(now.len() == goal.len());
    assert forall|k: int| 0 <= k < now.len() implies now[k] == goal[k] by {
        if k < i {
            assert(option_texts(v)[k] == want.take(i)[k]);
        }
    }
    assert(now =~= goal);
}

/// The entry of a byte in a list of numbers.
pub open spec fn u8_entry(x: u8) -> Seq<char> {
    decimal(x as nat) + ", "@
}

/// The entry of a number in a list of numbers: hexadecimal unless it is 0.
pub open spec fn u64_entry(x: u64) -> Seq<char> {
    if x == 0 {
        "0, "@
    } else {
        "0x"@ + hex_upper(x as nat) + ", "@
    }
}

/// The entry of a range of codepoints, if both of its ends can be
/// written.
pub open spec fn range_entry(opts: OptionsModel, range: (u32, u32)) -> Option<Seq<char>> {
    match (opts.codepoint(range.0), opts.codepoint(range.1)) {
        (Some(start), Some(end)) => Some("("@ + start + ", "@ + end + "), "@),
        _ => None,
    }
}

/// The entry of a range of codepoints in a C table.
pub open spec fn c_range_entry(range: (u32, u32)) -> Seq<char> {
    "{"@ + decimal(range.0 as nat) + ", "@ + decimal(range.1 as nat) + "}, "@
}

/// The entry of a range of codepoints with a number, if both of its ends
/// can be written.
pub open spec fn range_value_entry(opts: OptionsModel, range: (u32, u32, u64)) -> Option<Seq<char>> {
    match (opts.codepoint(range.0), opts.codepoint(range.1)) {
        (Some(start), Some(end)) => Some(
            "("@ + start + ", "@ + end + ", "@ + decimal(range.2 as nat) + "), "@,
        ),
        _ => None,
    }
}

/// The entry of a codepoint with a text, if the codepoint can be written.
pub open spec fn codepoint_string_entry(opts: OptionsModel, cp: u32, s: Seq<char>) -> Option<Seq<char>> {
    match opts.codepoint(cp) {
        Some(text) => Some("("@ + text + ", "@ + debug_str(s) + "), "@),
        None => None,
    }
}

/// The entry of a text with a codepoint, if the codepoint can be written.
pub open spec fn string_codepoint_entry(opts: OptionsModel, s: Seq<char>, cp: u32) -> Option<Seq<char>> {
    match opts.codepoint(cp) {
        Some(text) => Some("("@ + debug_str(s) + ", "@ + text + "), "@),
        None => None,
    }
}

/// The entry of a text with a number.
pub open spec fn string_u64_entry(s: Seq<char>, n: u64) -> Seq<char> {
    "("@ + debug_str(s) + ", "@ + decimal(n as nat) + "), "@
}

/// The largest number among the first `upto` ranges.
pub open spec fn largest_value(table: Seq<(u32, u32, u64)>, upto: int) -> u64
    decreases upto,
{
    if upto <= 0 {
        0
    } else if table[upto - 1].2 > largest_value(table, upto - 1) {
        table[upto - 1].2
    } else {
        largest_value(table, upto - 1)
    }
}

/// The line writer with each text of `parts` that is there on the line.
pub open spec fn write_options(text: crate::line_writer::LineModel, parts: Seq<Option<Seq<char>>>) -> crate::line_writer::LineModel
    decreases parts.len(),
{
    if parts.len() == 0 {
        text
    } else {
        match parts.last() {
            Some(s) => write_options(text, parts.drop_last()).write_str(s),
            None => write_options(text, parts.drop_last()),
        }
    }
}

impl WriterModel {
    /// The writer with each text of `parts` that is there on the line.
    pub open spec fn put_options(self, parts: Seq<Option<Seq<char>>>) -> WriterModel {
        WriterModel { text: write_options(self.text, parts), ..self }
    }

    /// The writer with the lines that start with `indent` from now on.
    pub open spec fn indented(self, indent: Seq<char>) -> WriterModel {
        WriterModel { text: crate::line_writer::LineModel { indent, ..self.text }, ..self }
    }

    /// The writer with the file `name` noted.
    pub open spec fn with_file(self, name: Seq<char>, bytes: Seq<u8>) -> WriterModel {
        WriterModel { files: self.files.push((name, bytes)), ..self }
    }

    /// The writer with a list of bytes.
    pub open spec fn slice_u8(self, xs: Seq<u8>) -> WriterModel {
        self.put_all(xs.map_values(|x: u8| u8_entry(x)))
    }

    /// The writer with a list of numbers.
    pub open spec fn slice_u64(self, xs: Seq<u64>) -> WriterModel {
        self.put_all(xs.map_values(|x: u64| u64_entry(x)))
    }

    /// The writer with the trie `name`.
    pub open spec fn trie_set(self, name: Seq<char>, trie: TrieModel) -> WriterModel {
        self.raw("pub const "@).raw(name).raw(
            ": &'static ::ucd_trie::TrieSet = &::ucd_trie::TrieSet {\n"@,
        ).indented("    "@).raw("  tree1_level1: &[\n"@).slice_u64(trie.tree1_level1).raw(
            "  ],\n  tree2_level1: &[\n"@,
        ).slice_u8(trie.tree2_level1).raw("  ],\n  tree2_level2: &[\n"@).slice_u64(
            trie.tree2_level2,
        ).raw("  ],\n  tree3_level1: &[\n"@).slice_u8(trie.tree3_level1).raw(
            "  ],\n  tree3_level2: &[\n"@,
        ).slice_u8(trie.tree3_level2).raw("  ],\n  tree3_level3: &[\n"@).slice_u64(
            trie.tree3_level3,
        ).raw("  ],\n};\n"@)
    }

    /// The writer with the table `name` of ranges of codepoints. `name` is
    /// written as it is.
    pub open spec fn ranges_slice(self, name: Seq<char>, table: Seq<(u32, u32)>) -> WriterModel {
        if self.opts.emit_c {
            self.begin_c_array(name, table.len(), "unsigned int"@, Some(2nat)).put_all(
                table.map_values(|r: (u32, u32)| c_range_entry(r)),
            ).end_c_array()
        } else {
            self.raw("pub const "@).raw(name).raw(": &'static [("@).raw(
                self.opts.codepoint_type(),
            ).raw(", "@).raw(self.opts.codepoint_type()).raw(")] = &[\n"@).put_options(
                table.map_values(|r: (u32, u32)| range_entry(self.opts, r)),
            ).raw("];\n"@)
        }
    }

    /// The writer with the table `name` of ranges of codepoints with
    /// numbers.
    pub open spec fn range_values_slice(self, name: Seq<char>, table: Seq<(u32, u32, u64)>) -> WriterModel {
        self.raw("pub const "@).raw(name).raw(": &'static [("@).raw(self.opts.codepoint_type()).raw(
            ", "@,
        ).raw(self.opts.codepoint_type()).raw(", "@).raw(
            unsigned_type(largest_value(table, table.len() as int)),
        ).raw(")] = &[\n"@).put_options(
            table.map_values(|r: (u32, u32, u64)| range_value_entry(self.opts, r)),
        ).raw("];\n"@)
    }

    /// The writer with the table `name` from codepoints to texts.
    pub open spec fn codepoint_strings_slice(self, name: Seq<char>, table: Seq<(u32, String)>) -> WriterModel {
        self.raw("pub const "@).raw(name).raw(": &'static [("@).raw(self.opts.codepoint_type()).raw(
            ", &'static str)] = &[\n"@,
        ).put_options(
            table.map_values(|e: (u32, String)| codepoint_string_entry(self.opts, e.0, e.1@)),
        ).raw("];\n"@)
    }

    /// The writer with the table `name` from texts to codepoints.
    pub open spec fn string_codepoints_slice(self, name: Seq<char>, table: Seq<(String, u32)>) -> WriterModel {
        self.raw("pub const "@).raw(name).raw(": &'static [(&'static str, "@).raw(
            self.opts.codepoint_type(),
        ).raw(")] = &[\n"@).put_options(
            table.map_values(|e: (String, u32)| string_codepoint_entry(self.opts, e.0@, e.1)),
        ).raw("];\n"@)
    }

    /// The writer with the table `name` from texts to numbers.
    pub open spec fn string_u64s_slice(self, name: Seq<char>, table: Seq<(String, u64)>) -> WriterModel {
        self.raw("pub const "@).raw(name).raw(": &'static [(&'static str, u64)] = &[\n"@).put_all(
            table.map_values(|e: (String, u64)| string_u64_entry(e.0@, e.1)),
        ).raw("];\n"@)
    }

    /// The writer with the transducer `name`: the file of its bytes is
    /// noted, and the text reads the file in.
    pub open spec fn fst(self, name: Seq<char>, bytes: Seq<u8>, map: bool) -> WriterModel {
        let ty = if map {
            "Map"@
        } else {
            "Set"@
        };
        self.with_file(module_name(name) + ".fst"@, bytes).raw(
            "lazy_static! {\n  pub static ref "@,
        ).raw(name).raw(": ::fst::"@).raw(ty).raw(" = \n    ::fst::"@).raw(ty).raw(
            "::from(::fst::raw::Fst::from_static_slice(\n      include_bytes!("@,
        ).raw(debug_str(module_name(name) + ".fst"@)).raw(")).unwrap());\n}\n"@)
    }

    /// The writer with the text that reads an automaton of the type
    /// `short_ty` in from the file `file_name`.
    pub open spec fn dfa_deserialize(
        self,
        short_ty: Seq<char>,
        align_to: Seq<char>,
        file_name: Seq<char>,
    ) -> WriterModel {
        self.raw("    #[repr(C)]\n    struct Aligned<B: ?Sized> {\n        _align: ["@).raw(
            align_to,
        ).raw(
            "; 0],\n        bytes: B,\n    }\n    \n    static ALIGNED: &'static Aligned<[u8]> = &Aligned {\n        _align: [],\n        bytes: *include_bytes!("@,
        ).raw(debug_str(file_name)).raw(
            "),\n    };\n    \n    unsafe {\n      ::regex_automata::"@,
        ).raw(short_ty).raw("::from_bytes(&ALIGNED.bytes)\n    }\n"@)
    }

    /// The writer with the automaton `name` as a static item.
    pub open spec fn dfa_static(
        self,
        name: Seq<char>,
        full_ty: Seq<char>,
        short_ty: Seq<char>,
        align_to: Seq<char>,
        file_name: Seq<char>,
    ) -> WriterModel {
        self.raw("lazy_static! {\n  pub static ref "@).raw(name).raw(": ::regex_automata::"@).raw(
            full_ty,
        ).raw(" = {\n"@).dfa_deserialize(short_ty, align_to, file_name).raw("  };\n}\n"@)
    }

    /// The writer with the regex `name` as a static item.
    pub open spec fn regex_static(
        self,
        name: Seq<char>,
        full_ty: Seq<char>,
        short_ty: Seq<char>,
        align_to: Seq<char>,
        file_name_fwd: Seq<char>,
        file_name_rev: Seq<char>,
    ) -> WriterModel {
        self.raw("lazy_static! {\n  pub static ref "@).raw(name).raw(": ::regex_automata::"@).raw(
            full_ty,
        ).raw(" = {\n    let fwd =\n"@).dfa_deserialize(short_ty, align_to, file_name_fwd).raw(
            "    ;\n    let rev =\n"@,
        ).dfa_deserialize(short_ty, align_to, file_name_rev).raw(
            "    ;\n    ::regex_automata::Regex::from_dfas(fwd, rev)\n  };\n}\n"@,
        )
    }
}

impl Writer {
    /// Puts each text of `parts` that is there on the line.
    pub(crate) fn put_options(&mut self, parts: &Vec<Option<String>>)
        ensures
            final(self)@.opts == old(self)@.opts,
            final(self)@ == old(self)@.put_options(option_texts(parts@)),
    {
        let mut i: usize = 0;
        assert(option_texts(parts@).take(0) =~= Seq::<Option<Seq<char>>>::empty());
        while i < parts.len()
            invariant
                i <= parts@.len(),
                self@ == old(self)@.put_options(option_texts(parts@).take(i as int)),
            decreases parts@.len() - i,
        {
            proof {
                let next = option_texts(parts@).take(i + 1);
                assert(next.drop_last() =~= option_texts(parts@).take(i as int));
            }
            match &parts[i] {
                Some(s) => {
                    self.put(s.as_str());
                },
                None => {},
            }
            i += 1;
        }
        assert(option_texts(parts@).take(i as int) =~= option_texts(parts@));
    }

    /// Writes a list of bytes.
    pub fn write_slice_u8(&mut self, xs: &Vec<u8>)
        ensures
            final(self)@.opts == old(self)@.opts,
            final(self)@ == old(self)@.slice_u8(xs@),
    {
        let ghost want = xs@.map_values(|x: u8| u8_entry(x));
        let mut entries: Vec<String> = Vec::new();
        let mut i: usize = 0;
        while i < xs.len()
            invariant
                i <= xs@.len(),
                want == xs@.map_values(|x: u8| u8_entry(x)),
                texts(entries@) == want.take(i as int),
            decreases xs@.len() - i,
        {
            let mut entry = decimal_string(xs[i] as u64);
            entry.append(", ");
            proof {
                crate::writer::lemma_texts_push(entries@, entry, want, i as int);
            }
            entries.push(entry);
            i += 1;
        }
        assert(want.take(i as int) =~= want);
        self.put_all(&entries);
    }

    /// Writes a list of numbers, in hexadecimal but for 0.
    pub fn write_slice_u64(&mut self, xs: &Vec<u64>)
        ensures
            final(self)@.opts == old(self)@.opts,
            final(self)@ == old(self)@.slice_u64(xs@),
    {
        let ghost want = xs@.map_values(|x: u64| u64_entry(x));
        let mut entries: Vec<String> = Vec::new();
        let mut i: usize = 0;
        while i < xs.len()
            invariant
                i <= xs@.len(),
                want == xs@.map_values(|x: u64| u64_entry(x)),
                texts(entries@) == want.take(i as int),
            decreases xs@.len() - i,
        {
            let entry = if xs[i] == 0 {
                String::from_str("0, ")
            } else {
                let mut entry = String::from_str("0x");
                entry.append(hex_upper_string(xs[i]).as_str());
                entry.append(", ");
                entry
            };
            proof {
                crate::writer::lemma_texts_push(entries@, entry, want, i as int);
            }
            entries.push(entry);
            i += 1;
        }
        assert(want.take(i as int) =~= want);
        self.put_all(&entries);
    }

    /// Writes a trie under the name `name`. Fails if C is written.
    pub fn trie_set(&mut self, name: &str, trie: &TrieSet) -> (r: Result<(), Error>)
        ensures
            final(self)@.opts == old(self)@.opts,
            match old(self)@.opts.not_c("trie set"@) {
                Some(msg) => r is Err && r->Err_0@ == msg && final(self)@ == old(self)@,
                None => r is Ok && final(self)@ == old(self)@.trie_set(name@, trie@),
            },
    {
        match self.ensure_not_c("trie set") {
            Err(e) => {
                return Err(e);
            },
            Ok(()) => {},
        }
        self.raw("pub const ");
        self.raw(name);
        self.raw(": &'static ::ucd_trie::TrieSet = &::ucd_trie::TrieSet {\n");
        self.indent("    ");
        self.raw("  tree1_level1: &[\n");
        self.write_slice_u64(&trie.tree1_level1);
        self.raw("  ],\n  tree2_level1: &[\n");
        self.write_slice_u8(&trie.tree2_level1);
        self.raw("  ],\n  tree2_level2: &[\n");
        self.write_slice_u64(&trie.tree2_level2);
        self.raw("  ],\n  tree3_level1: &[\n");
        self.write_slice_u8(&trie.tree3_level1);
        self.raw("  ],\n  tree3_level2: &[\n");
        self.write_slice_u8(&trie.tree3_level2);
        self.raw("  ],\n  tree3_level3: &[\n");
        self.write_slice_u64(&trie.tree3_level3);
        self.raw("  ],\n};\n");
        Ok(())
    }

    /// Writes the ranges of a C table.
    pub(crate) fn c_ranges_array(&mut self, name: &str, table: &Vec<(u32, u32)>)
        requires
            old(self)@.opts.emit_c,
        ensures
            final(self)@.opts == old(self)@.opts,
            final(self)@ == old(self)@.ranges_slice(name@, table@),
    {
        self.begin_c_array(name, table.len(), "unsigned int", Some(2));
        let ghost want = table@.map_values(|r: (u32, u32)| c_range_entry(r));
        let mut entries: Vec<String> = Vec::new();
        let mut i: usize = 0;
        while i < table.len()
            invariant
                i <= table@.len(),
                want == table@.map_values(|r: (u32, u32)| c_range_entry(r)),
                texts(entries@) == want.take(i as int),
            decreases table@.len() - i,
        {
            let mut entry = String::from_str("{");
            entry.append(decimal_string(table[i].0 as u64).as_str());
            entry.append(", ");
            entry.append(decimal_string(table[i].1 as u64).as_str());
            entry.append("}, ");
            proof {
                crate::writer::lemma_texts_push(entries@, entry, want, i as int);
            }
            entries.push(entry);
            i += 1;
        }
        assert(want.take(i as int) =~= want);
        self.put_all(&entries);
        self.end_c_array();
    }

    /// Writes the table `name` of ranges of codepoints. A range with an
    /// end that cannot be written is left out.
    pub fn ranges_slice(&mut self, name: &str, table: &Vec<(u32, u32)>)
        ensures
            final(self)@.opts == old(self)@.opts,
            final(self)@ == old(self)@.ranges_slice(name@, table@),
    {
        if self.emits_c() {
            self.c_ranges_array(name, table);
            return ;
        }
        let ghost opts = self@.opts;
        let ty = self.rust_codepoint_type();
        self.raw("pub const ");
        self.raw(name);
        self.raw(": &'static [(");
        self.raw(ty);
        self.raw(", ");
        self.raw(ty);
        self.raw(")] = &[\n");
        let ghost want = table@.map_values(|r: (u32, u32)| range_entry(opts, r));
        let mut entries: Vec<Option<String>> = Vec::new();
        let mut i: usize = 0;
        while i < table.len()
            invariant
                i <= table@.len(),
                self@.opts == opts,
                want == table@.map_values(|r: (u32, u32)| range_entry(opts, r)),
                option_texts(entries@) == want.take(i as int),
            decreases table@.len() - i,
        {
            let entry = match (self.rust_codepoint(table[i].0), self.rust_codepoint(table[i].1)) {
                (Some(start), Some(end)) => {
                    let mut entry = String::from_str("(");
                    entry.append(start.as_str());
                    entry.append(", ");
                    entry.append(end.as_str());
                    entry.append("), ");
                    Some(entry)
                },
                _ => None,
            };
            proof {
                lemma_option_texts_push(entries@, entry, want, i as int);
            }
            entries.push(entry);
            i += 1;
        }
        assert(want.take(i as int) =~= want);
        self.put_options(&entries);
        self.raw("];\n");
    }

    /// Writes the table `name` of ranges of codepoints with numbers, of
    /// the smallest type that holds the numbers. Fails if C is written.
    pub fn ranges_to_unsigned_integer_slice(&mut self, name: &str, table: &Vec<(u32, u32, u64)>) -> (r:
        Result<(), Error>)
        ensures
            match old(self)@.opts.not_c("range->unsigned int map"@) {
                Some(msg) => r is Err && r->Err_0@ == msg && final(self)@ == old(self)@,
                None => r is Ok && final(self)@ == old(self)@.range_values_slice(name@, table@),
            },
    {
        match self.ensure_not_c("range->unsigned int map") {
            Err(e) => {
                return Err(e);
            },
            Ok(()) => {},
        }
        let ghost opts = self@.opts;
        let cp_ty = self.rust_codepoint_type();
        let mut largest: u64 = 0;
        let mut k: usize = 0;
        while k < table.len()
            invariant
                k <= table@.len(),
                largest == largest_value(table@, k as int),
            decreases table@.len() - k,
        {
            if table[k].2 > largest {
                largest = table[k].2;
            }
            k += 1;
        }
        let num_ty = smallest_unsigned_type(largest);
        self.raw("pub const ");
        self.raw(name);
        self.raw(": &'static [(");
        self.raw(cp_ty);
        self.raw(", ");
        self.raw(cp_ty);
        self.raw(", ");
        self.raw(num_ty);
        self.raw(")] = &[\n");
        let ghost want = table@.map_values(|r: (u32, u32, u64)| range_value_entry(opts, r));
        let mut entries: Vec<Option<String>> = Vec::new();
        let mut i: usize = 0;
        while i < table.len()
            invariant
                i <= table@.len(),
                self@.opts == opts,
                want == table@.map_values(|r: (u32, u32, u64)| range_value_entry(opts, r)),
                option_texts(entries@) == want.take(i as int),
            decreases table@.len() - i,
        {
            let entry = match (self.rust_codepoint(table[i].0), self.rust_codepoint(table[i].1)) {
                (Some(start), Some(end)) => {
                    let mut entry = String::from_str("(");
                    entry.append(start.as_str());
                    entry.append(", ");
                    entry.append(end.as_str());
                    entry.append(", ");
                    entry.append(decimal_string(table[i].2).as_str());
                    entry.append("), ");
                    Some(entry)
                },
                _ => None,
            };
            proof {
                lemma_option_texts_push(entries@, entry, want, i as int);
            }
            entries.push(entry);
            i += 1;
        }
        assert(want.take(i as int) =~= want);
        self.put_options(&entries);
        self.raw("];\n");
        Ok(())
    }

    /// Writes the table `name` from codepoints to texts. Fails if C is
    /// written.
    pub fn codepoint_to_string_slice(&mut self, name: &str, table: &Vec<(u32, String)>) -> (r: Result<
        (),
        Error,
    >)
        ensures
            match old(self)@.opts.not_c("codepoint->string map"@) {
                Some(msg) => r is Err && r->Err_0@ == msg && final(self)@ == old(self)@,
                None => r is Ok && final(self)@ == old(self)@.codepoint_strings_slice(name@, table@),
            },
    {
        match self.ensure_not_c("codepoint->string map") {
            Err(e) => {
                return Err(e);
            },
            Ok(()) => {},
        }
        let ghost opts = self@.opts;
        let ty = self.rust_codepoint_type();
        self.raw("pub const ");
        self.raw(name);
        self.raw(": &'static [(");
        self.raw(ty);
        self.raw(", &'static str)] = &[\n");
        let ghost want = table@.map_values(
            |e: (u32, String)| codepoint_string_entry(opts, e.0, e.1@),
        );
        let mut entries: Vec<Option<String>> = Vec::new();
        let mut i: usize = 0;
        while i < table.len()
            invariant
                i <= table@.len(),
                self@.opts == opts,
                want == table@.map_values(
                    |e: (u32, String)| codepoint_string_entry(opts, e.0, e.1@),
                ),
                option_texts(entries@) == want.take(i as int),
            decreases table@.len() - i,
        {
            let entry = match self.rust_codepoint(table[i].0) {
                Some(cp) => {
                    let mut entry = String::from_str("(");
                    entry.append(cp.as_str());
                    entry.append(", ");
                    entry.append(debug_string(table[i].1.as_str()).as_str());
                    entry.append("), ");
                    Some(entry)
                },
                None => None,
            };
            proof {
                lemma_option_texts_push(entries@, entry, want, i as int);
            }
            entries.push(entry);
            i += 1;
        }
        assert(want.take(i as int) =~= want);
        self.put_options(&entries);
        self.raw("];\n");
        Ok(())
    }

    /// Writes the table `name` from texts to codepoints. Fails if C is
    /// written.
    pub fn string_to_codepoint_slice(&mut self, name: &str, table: &Vec<(String, u32)>) -> (r: Result<
        (),
        Error,
    >)
        ensures
            match old(self)@.opts.not_c("string->codepoint map"@) {
                Some(msg) => r is Err && r->Err_0@ == msg && final(self)@ == old(self)@,
                None => r is Ok && final(self)@ == old(self)@.string_codepoints_slice(name@, table@),
            },
    {
        match self.ensure_not_c("string->codepoint map") {
            Err(e) => {
                return Err(e);
            },
            Ok(()) => {},
        }
        let ghost opts = self@.opts;
        let ty = self.rust_codepoint_type();
        self.raw("pub const ");
        self.raw(name);
        self.raw(": &'static [(&'static str, ");
        self.raw(ty);
        self.raw(")] = &[\n");
        let ghost want = table@.map_values(
            |e: (String, u32)| string_codepoint_entry(opts, e.0@, e.1),
        );
        let mut entries: Vec<Option<String>> = Vec::new();
        let mut i: usize = 0;
        while i < table.len()
            invariant
                i <= table@.len(),
                self@.opts == opts,
                want == table@.map_values(
                    |e: (String, u32)| string_codepoint_entry(opts, e.0@, e.1),
                ),
                option_texts(entries@) == want.take(i as int),
            decreases table@.len() - i,
        {
            let entry = match self.rust_codepoint(table[i].1) {
                Some(cp) => {
                    let mut entry = String::from_str("(");
                    entry.append(debug_string(table[i].0.as_str()).as_str());
                    entry.append(", ");
                    entry.append(cp.as_str());
                    entry.append("), ");
                    Some(entry)
                },
                None => None,
            };
            proof {
                lemma_option_texts_push(entries@, entry, want, i as int);
            }
            entries.push(entry);
            i += 1;
        }
        assert(want.take(i as int) =~= want);
        self.put_options(&entries);
        self.raw("];\n");
        Ok(())
    }

    /// Writes the table `name` from texts to numbers.
    pub fn string_to_u64_slice(&mut self, name: &str, table: &Vec<(String, u64)>)
        ensures
            final(self)@ == old(self)@.string_u64s_slice(name@, table@),
    {
        self.raw("pub const ");
        self.raw(name);
        self.raw(": &'static [(&'static str, u64)] = &[\n");
        let ghost want = table@.map_values(|e: (String, u64)| string_u64_entry(e.0@, e.1));
        let mut entries: Vec<String> = Vec::new();
        let mut i: usize = 0;
        while i < table.len()
            invariant
                i <= table@.len(),
                want == table@.map_values(|e: (String, u64)| string_u64_entry(e.0@, e.1)),
                texts(entries@) == want.take(i as int),
            decreases table@.len() - i,
        {
            let mut entry = String::from_str("(");
            entry.append(debug_string(table[i].0.as_str()).as_str());
            entry.append(", ");
            entry.append(decimal_string(table[i].1).as_str());
            entry.append("), ");
            proof {
                crate::writer::lemma_texts_push(entries@, entry, want, i as int);
            }
            entries.push(entry);
            i += 1;
        }
        assert(want.take(i as int) =~= want);
        self.put_all(&entries);
        self.raw("];\n");
    }

    /// Notes the file of the transducer `const_name` and writes the text
    /// that reads it in. Fails if C is written.
    pub fn fst(&mut self, const_name: &str, bytes: Vec<u8>, map: bool) -> (r: Result<(), Error>)
        ensures
            final(self)@.opts == old(self)@.opts,
            match old(self)@.opts.not_c("fst"@) {
                Some(msg) => r is Err && r->Err_0@ == msg && final(self)@ == old(self)@,
                None => r is Ok && final(self)@ == old(self)@.fst(const_name@, bytes@, map),
            },
    {
        match self.ensure_not_c("fst") {
            Err(e) => {
                return Err(e);
            },
            Ok(()) => {},
        }
        let mut file_name = rust_module_name(const_name);
        file_name.append(".fst");
        let quoted = debug_string(file_name.as_str());
        self.add_file(file_name, bytes);
        let ty = if map {
            "Map"
        } else {
            "Set"
        };
        self.raw("lazy_static! {\n  pub static ref ");
        self.raw(const_name);
        self.raw(": ::fst::");
        self.raw(ty);
        self.raw(" = \n    ::fst::");
        self.raw(ty);
        self.raw("::from(::fst::raw::Fst::from_static_slice(\n      include_bytes!(");
        self.raw(quoted.as_str());
        self.raw(")).unwrap());\n}\n");
        Ok(())
    }

    /// Writes the text that reads an automaton in from a file.
    pub fn write_dfa_deserialize(&mut self, short_dfa_ty: &str, align_to: &str, file_name: &str)
        ensures
            final(self)@ == old(self)@.dfa_deserialize(short_dfa_ty@, align_to@, file_name@),
    {
        self.raw("    #[repr(C)]\n    struct Aligned<B: ?Sized> {\n        _align: [");
        self.raw(align_to);
        self.raw(
            "; 0],\n        bytes: B,\n    }\n    \n    static ALIGNED: &'static Aligned<[u8]> = &Aligned {\n        _align: [],\n        bytes: *include_bytes!(",
        );
        self.raw(debug_string(file_name).as_str());
        self.raw("),\n    };\n    \n    unsafe {\n      ::regex_automata::");
        self.raw(short_dfa_ty);
        self.raw("::from_bytes(&ALIGNED.bytes)\n    }\n");
    }

    /// Writes an automaton as a static item. Fails if C is written.
    pub fn write_dfa_static(
        &mut self,
        const_name: &str,
        full_dfa_ty: &str,
        short_dfa_ty: &str,
        align_to: &str,
        file_name: &str,
    ) -> (r: Result<(), Error>)
        ensures
            match old(self)@.opts.not_c("static dfa"@) {
                Some(msg) => r is Err && r->Err_0@ == msg && final(self)@ == old(self)@,
                None => r is Ok && final(self)@ == old(self)@.dfa_static(
                    const_name@,
                    full_dfa_ty@,
                    short_dfa_ty@,
                    align_to@,
                    file_name@,
                ),
            },
    {
        match self.ensure_not_c("static dfa") {
            Err(e) => {
                return Err(e);
            },
            Ok(()) => {},
        }
        self.raw("lazy_static! {\n  pub static ref ");
        self.raw(const_name);
        self.raw(": ::regex_automata::");
        self.raw(full_dfa_ty);
        self.raw(" = {\n");
        self.write_dfa_deserialize(short_dfa_ty, align_to, file_name);
        self.raw("  };\n}\n");
        Ok(())
    }

    /// Writes a regex of two automata as a static item. Fails if C is
    /// written.
    pub fn write_regex_static(
        &mut self,
        const_name: &str,
        full_regex_ty: &str,
        short_dfa_ty: &str,
        align_to: &str,
        file_name_fwd: &str,
        file_name_rev: &str,
    ) -> (r: Result<(), Error>)
        ensures
            match old(self)@.opts.not_c("static regex"@) {
                Some(msg) => r is Err && r->Err_0@ == msg && final(self)@ == old(self)@,
                None => r is Ok && final(self)@ == old(self)@.regex_static(
                    const_name@,
                    full_regex_ty@,
                    short_dfa_ty@,
                    align_to@,
                    file_name_fwd@,
                    file_name_rev@,
                ),
            },
    {
        match self.ensure_not_c("static regex") {
            Err(e) => {
                return Err(e);
            },
            Ok(()) => {},
        }
        self.raw("lazy_static! {\n  pub static ref ");
        self.raw(const_name);
        self.raw(": ::regex_automata::");
        self.raw(full_regex_ty);
        self.raw(" = {\n    let fwd =\n");
        self.write_dfa_deserialize(short_dfa_ty, align_to, file_name_fwd);
        self.raw("    ;\n    let rev =\n");
        self.write_dfa_deserialize(short_dfa_ty, align_to, file_name_rev);
        self.raw("    ;\n    ::regex_automata::Regex::from_dfas(fwd, rev)\n  };\n}\n");
        Ok(())
    }
}

/// Whether each codepoint is larger than the one in front of it, as the
/// keys of an ordered map are.
pub open spec fn codepoints_increase(keys: Seq<u32>) -> bool {
    forall|i: int, j: int|
        0 <= i && j == i + 1 && j < keys.len() ==> #[trigger] keys[i] < #[trigger] keys[j]
}

/// Entries whose keys are the keys of codepoints stand in the order of
/// their keys just when the codepoints increase.
pub proof fn lemma_entries_order(keys: Seq<u32>, entries: Seq<(Seq<u8>, u64)>)
    requires
        entries.len() == keys.len(),
        forall|i: int| 0 <= i < keys.len() ==> (#[trigger] entries[i]).0 == be_bytes(keys[i]),
    ensures
        keys_increase(entries) <==> codepoints_increase(keys),
{
    if keys_increase(entries) {
        assert forall|i: int, j: int| 0 <= i && j == i + 1 && j < keys.len() implies #[trigger] keys[i]
            < #[trigger] keys[j] by {
            lemma_be_bytes_order(keys[j], keys[i]);
            assert(entries[j].0 != entries[i].0 && !bytes_lt(entries[j].0, entries[i].0));
        }
    }
    if codepoints_increase(keys) {
        assert forall|i: int, j: int| 0 <= i && j == i + 1 && j < entries.len() implies (
        #[trigger] entries[j]).0 != (#[trigger] entries[i]).0 && !bytes_lt(
            entries[j].0,
            entries[i].0,
        ) by {
            lemma_be_bytes_order(keys[j], keys[i]);
            assert(keys[i] < keys[j]);
        }
    }
}

/// The keys of the codepoints.
pub open spec fn codepoint_keys(codepoints: Seq<u32>) -> Seq<Seq<u8>> {
    codepoints.map_values(|cp: u32| be_bytes(cp))
}

/// The entries of a map from codepoints to numbers, with the codepoints
/// as keys.
pub open spec fn number_entries(map: Seq<(u32, u64)>) -> Seq<(Seq<u8>, u64)> {
    map.map_values(|e: (u32, u64)| (be_bytes(e.0), e.1))
}

/// The entries of a map from codepoints to codepoints, with the
/// codepoints as keys.
pub open spec fn codepoint_entries(map: Seq<(u32, u32)>) -> Seq<(Seq<u8>, u64)> {
    map.map_values(|e: (u32, u32)| (be_bytes(e.0), e.1 as u64))
}

/// The entries of a map from codepoints to texts, with the codepoints as
/// keys and the texts packed into numbers.
pub open spec fn packed_entries(map: Seq<(u32, String)>) -> Seq<(Seq<u8>, u64)> {
    map.map_values(|e: (u32, String)| (be_bytes(e.0), packed(vstd::utf8::encode_utf8(e.1@)) as u64))
}

/// Whether the text can be packed into a number: it has no more than 8
/// bytes and none of them is 0.
pub open spec fn packs(s: String) -> bool {
    vstd::utf8::encode_utf8(s@).len() <= 8 && !vstd::utf8::encode_utf8(s@).contains(0u8)
}

/// The entries of a map from texts to codepoints, with the bytes of the
/// texts as keys.
pub open spec fn text_codepoint_entries(map: Seq<(String, u32)>) -> Seq<(Seq<u8>, u64)> {
    map.map_values(|e: (String, u32)| (vstd::utf8::encode_utf8(e.0@), e.1 as u64))
}

/// The entries of a map from texts to numbers, with the bytes of the texts
/// as keys.
pub open spec fn text_number_entries(map: Seq<(String, u64)>) -> Seq<(Seq<u8>, u64)> {
    map.map_values(|e: (String, u64)| (vstd::utf8::encode_utf8(e.0@), e.1))
}

/// A list of entries with one more entry.
pub proof fn lemma_entries_push(
    v: Seq<(Vec<u8>, u64)>,
    e: (Vec<u8>, u64),
    want: Seq<(Seq<u8>, u64)>,
    i: int,
)
    requires
        entry_views(v) == want.take(i),
        0 <= i < want.len(),
        (e.0@, e.1) == want[i],
    ensures
        entry_views(v.push(e)) == want.take(i + 1),
{
    assert(entry_views(v).len() == v.len());
    assert(want.take(i).len() == i);
    let now = entry_views(v.push(e));
    let goal = want.take(i + 1);
    assert(now.len() == goal.len());
    assert forall|k: int| 0 <= k < now.len() implies now[k] == goal[k] by {
        if k < i {
            assert(entry_views(v)[k] == want.take(i)[k]);
        }
    }
    assert(now =~= goal);
}

/// A list of keys with one more key.
pub proof fn lemma_keys_push(v: Seq<Vec<u8>>, k: Vec<u8>, want: Seq<Seq<u8>>, i: int)
    requires
        key_views(v) == want.take(i),
        0 <= i < want.len(),
        k@ == want[i],
    ensures
        key_views(v.push(k)) == want.take(i + 1),
{
    assert(key_views(v).len() == v.len());
    assert(want.take(i).len() == i);
    let now = key_views(v.push(k));
    let goal = want.take(i + 1);
    assert(now.len() == goal.len());
    assert forall|j: int| 0 <= j < now.len() implies now[j] == goal[j] by {
        if j < i {
            assert(key_views(v)[j] == want.take(i)[j]);
        }
    }
    assert(now =~= goal);
}

/// The bytes of an array of four bytes.
pub fn key_bytes(key: [u8; 4]) -> (bytes: Vec<u8>)
    ensures
        bytes@ == key@,
{
    let mut bytes: Vec<u8> = Vec::new();
    bytes.push(key[0]);
    bytes.push(key[1]);
    bytes.push(key[2]);
    bytes.push(key[3]);
    assert(bytes@ =~= key@);
    bytes
}

/// The bytes of a text.
pub fn text_bytes(s: &str) -> (bytes: Vec<u8>)
    ensures
        bytes@ == s.spec_bytes(),
{
    s.as_bytes_vec()
}

impl WriterModel {
    /// The writer with the set `name` of the codepoints `sorted`: as a
    /// transducer, as a trie or as a table of ranges.
    #[verifier::opaque]
    pub open spec fn ranges(self, name: Seq<char>, sorted: Seq<u32>) -> WriterModel {
        let m = self.header().separator();
        if m.opts.fst_dir is Some {
            m.fst(const_name(name), fst_set_bytes(codepoint_keys(sorted)), false).flushed()
        } else if m.opts.trie_set {
            m.trie_set(const_name(name), trie_of(sorted)).flushed()
        } else {
            m.ranges_slice(const_name(name), ranges_of(sorted, sorted.len() as int)).flushed()
        }
    }

    /// The writer with the map `name` from codepoints to numbers: as a
    /// transducer or as a table of ranges.
    pub open spec fn ranges_to_unsigned_integer(self, name: Seq<char>, map: Seq<(u32, u64)>) -> WriterModel {
        let m = self.header().separator();
        if m.opts.fst_dir is Some {
            m.fst(const_name(name), fst_map_bytes(number_entries(map)), true).flushed()
        } else {
            m.range_values_slice(const_name(name), range_values_of(map, map.len() as int)).flushed()
        }
    }

    /// The writer with the map `name` from codepoints to codepoints.
    pub open spec fn codepoint_to_codepoint(self, name: Seq<char>, map: Seq<(u32, u32)>) -> WriterModel {
        let m = self.header().separator();
        if m.opts.fst_dir is Some {
            m.fst(const_name(name), fst_map_bytes(codepoint_entries(map)), true).flushed()
        } else {
            m.ranges_slice(const_name(name), map).flushed()
        }
    }

    /// The writer with the map `name` from codepoints to texts.
    pub open spec fn codepoint_to_string(self, name: Seq<char>, map: Seq<(u32, String)>) -> WriterModel {
        let m = self.header().separator();
        if m.opts.fst_dir is Some {
            m.fst(const_name(name), fst_map_bytes(packed_entries(map)), true).flushed()
        } else {
            m.codepoint_strings_slice(const_name(name), map).flushed()
        }
    }

    /// The writer with the map `name` from texts to codepoints.
    pub open spec fn string_to_codepoint(self, name: Seq<char>, map: Seq<(String, u32)>) -> WriterModel {
        let m = self.header().separator();
        if m.opts.fst_dir is Some {
            m.fst(const_name(name), fst_map_bytes(text_codepoint_entries(map)), true).flushed()
        } else {
            m.string_codepoints_slice(const_name(name), map).flushed()
        }
    }

    /// The writer with the map `name` from texts to numbers.
    pub open spec fn string_to_u64(self, name: Seq<char>, map: Seq<(String, u64)>) -> WriterModel {
        let m = self.header().separator();
        if m.opts.fst_dir is Some {
            m.fst(const_name(name), fst_map_bytes(text_number_entries(map)), true).flushed()
        } else {
            m.string_u64s_slice(const_name(name), map).flushed()
        }
    }
}

impl Writer {
    /// Ends the writing of a transducer: with its bytes, notes the file and
    /// writes the text that reads it in; without, fails with what the
    /// encoder said.
    pub fn finish_fst(&mut self, const_name: &str, encoded: Result<Vec<u8>, String>, map: bool) -> (r:
        Result<(), Error>)
        ensures
            final(self)@.opts == old(self)@.opts,
            match encoded {
                Err(msg) => r is Err && r->Err_0@ == msg@ && final(self)@ == old(self)@,
                Ok(bytes) => match old(self)@.opts.not_c("fst"@) {
                    Some(msg) => r is Err && r->Err_0@ == msg && final(self)@ == old(self)@,
                    None => r is Ok && final(self)@ == old(self)@.fst(const_name@, bytes@, map),
                },
            },
    {
        match encoded {
            Err(msg) => Err(Error::Other(msg)),
            Ok(bytes) => self.fst(const_name, bytes, map),
        }
    }

    /// Writes the set `name` of codepoints: as a transducer if a directory
    /// for transducers is set, else as a trie if tries are asked for, else
    /// as a table of ranges. A transducer and a trie are not written as C.
    /// A trie is not made of a number beyond the last codepoint, and the
    /// crate that makes it may give up on other sets.
    pub fn ranges(&mut self, name: &str, codepoints: &Vec<u32>) -> (r: Result<(), Error>)
        ensures
            r is Ok ==> final(self)@ == old(self)@.ranges(name@, sorted_of(codepoints@)),
            final(self)@.opts == old(self)@.opts,
            old(self)@.opts.fst_dir is None && !old(self)@.opts.trie_set ==> r is Ok,
            old(self)@.opts.fst_dir is Some ==> (r is Ok <==> !old(self)@.opts.emit_c),
            old(self)@.opts.emit_c && (old(self)@.opts.fst_dir is Some || old(self)@.opts.trie_set)
                ==> r is Err,
            old(self)@.opts.fst_dir is None && old(self)@.opts.trie_set && (exists|i: int|
                0 <= i < codepoints@.len() && #[trigger] codepoints@[i] > 0x10FFFF) ==> r is Err,
    {
        proof {
            reveal(WriterModel::ranges);
        }
        self.header();
        self.separator();
        let const_name = rust_const_name(name);
        let sorted = crate::util::sorted_set(codepoints);
        if self.writes_fsts() {
            let ghost want = codepoint_keys(sorted@);
            let mut keys: Vec<Vec<u8>> = Vec::new();
            let mut i: usize = 0;
            assert(key_views(keys@) =~= want.take(0));
            while i < sorted.len()
                invariant
                    i <= sorted@.len(),
                    want == codepoint_keys(sorted@),
                    key_views(keys@) == want.take(i as int),
                decreases sorted@.len() - i,
            {
                let key = key_bytes(u32_key(sorted[i]));
                proof {
                    lemma_keys_push(keys@, key, want, i as int);
                }
                keys.push(key);
                i += 1;
            }
            assert(want.take(i as int) =~= want);
            proof {
                assert forall|i: int, j: int| 0 <= i && j == i + 1 && j < want.len() implies !bytes_lt(
                    #[trigger] want[j],
                    #[trigger] want[i],
                ) by {
                    lemma_be_bytes_order(sorted@[j], sorted@[i]);
                }
            }
            let encoded = build_fst_set(&keys);
            match self.finish_fst(const_name.as_str(), encoded, false) {
                Err(e) => {
                    return Err(e);
                },
                Ok(()) => {},
            }
        } else if self.writes_tries() {
            proof {
                if exists|i: int| 0 <= i < codepoints@.len() && #[trigger] codepoints@[i] > 0x10FFFF {
                    let i = choose|i: int|
                        0 <= i < codepoints@.len() && #[trigger] codepoints@[i] > 0x10FFFF;
                    assert(codepoints@.contains(codepoints@[i]));
                    assert(sorted@.contains(codepoints@[i]));
                    let k = choose|k: int| 0 <= k < sorted@.len() && sorted@[k] == codepoints@[i];
                    assert(sorted@[k] > 0x10FFFF);
                }
            }
            match build_trie(&sorted) {
                Err(msg) => {
                    return Err(Error::Other(msg));
                },
                Ok(trie) => match self.trie_set(const_name.as_str(), &trie) {
                    Err(e) => {
                        return Err(e);
                    },
                    Ok(()) => {},
                },
            }
        } else {
            let mut ranges: Vec<(u32, u32)> = Vec::new();
            let mut i: usize = 0;
            while i < sorted.len()
                invariant
                    i <= sorted@.len(),
                    ranges@ == ranges_of(sorted@, i as int),
                decreases sorted@.len() - i,
            {
                crate::util::range_add(&mut ranges, sorted[i]);
                i += 1;
            }
            self.ranges_slice(const_name.as_str(), &ranges);
        }
        self.flush();
        Ok(())
    }

    /// The entries of a transducer from the pairs of `map`.
    fn number_entries(map: &Vec<(u32, u64)>) -> (entries: Vec<(Vec<u8>, u64)>)
        ensures
            entry_views(entries@) == number_entries(map@),
    {
        let ghost want = number_entries(map@);
        let mut entries: Vec<(Vec<u8>, u64)> = Vec::new();
        let mut i: usize = 0;
        assert(entry_views(entries@) =~= want.take(0));
        while i < map.len()
            invariant
                i <= map@.len(),
                want == number_entries(map@),
                entry_views(entries@) == want.take(i as int),
            decreases map@.len() - i,
        {
            let entry = (key_bytes(u32_key(map[i].0)), map[i].1);
            proof {
                lemma_entries_push(entries@, entry, want, i as int);
            }
            entries.push(entry);
            i += 1;
        }
        assert(want.take(i as int) =~= want);
        entries
    }

    /// Writes the map `name` from codepoints to numbers: as a transducer
    /// if a directory for transducers is set, else as a table of ranges of
    /// codepoints that follow one on the other with one number. Neither is
    /// written as C.
    pub fn ranges_to_unsigned_integer(&mut self, name: &str, map: &Vec<(u32, u64)>) -> (r: Result<
        (),
        Error,
    >)
        ensures
            r is Ok ==> final(self)@ == old(self)@.ranges_to_unsigned_integer(name@, map@),
            old(self)@.opts.emit_c ==> r is Err,
            old(self)@.opts.fst_dir is None && !old(self)@.opts.emit_c ==> r is Ok,
            old(self)@.opts.fst_dir is Some && !old(self)@.opts.emit_c ==> (r is Ok
                <==> codepoints_increase(map@.map_values(|e: (u32, u64)| e.0))),
    {
        self.header();
        self.separator();
        let const_name = rust_const_name(name);
        if self.writes_fsts() {
            let entries = Writer::number_entries(map);
            proof {
                lemma_entries_order(map@.map_values(|e: (u32, u64)| e.0), entry_views(entries@));
            }
            let encoded = build_fst_map(&entries);
            match self.finish_fst(const_name.as_str(), encoded, true) {
                Err(e) => {
                    return Err(e);
                },
                Ok(()) => {},
            }
        } else {
            let ranges = to_range_values(map);
            match self.ranges_to_unsigned_integer_slice(const_name.as_str(), &ranges) {
                Err(e) => {
                    return Err(e);
                },
                Ok(()) => {},
            }
        }
        self.flush();
        Ok(())
    }

    /// Writes the map `name` from codepoints to codepoints: as a
    /// transducer if a directory for transducers is set, else as a table
    /// of pairs.
    pub fn codepoint_to_codepoint(&mut self, name: &str, map: &Vec<(u32, u32)>) -> (r: Result<
        (),
        Error,
    >)
        ensures
            r is Ok ==> final(self)@ == old(self)@.codepoint_to_codepoint(name@, map@),
            old(self)@.opts.fst_dir is None ==> r is Ok,
            old(self)@.opts.fst_dir is Some && old(self)@.opts.emit_c ==> r is Err,
            old(self)@.opts.fst_dir is Some && !old(self)@.opts.emit_c ==> (r is Ok
                <==> codepoints_increase(map@.map_values(|e: (u32, u32)| e.0))),
    {
        self.header();
        self.separator();
        let const_name = rust_const_name(name);
        if self.writes_fsts() {
            let ghost want = codepoint_entries(map@);
            let mut entries: Vec<(Vec<u8>, u64)> = Vec::new();
            let mut i: usize = 0;
            assert(entry_views(entries@) =~= want.take(0));
            while i < map.len()
                invariant
                    i <= map@.len(),
                    want == codepoint_entries(map@),
                    entry_views(entries@) == want.take(i as int),
                decreases map@.len() - i,
            {
                let entry = (key_bytes(u32_key(map[i].0)), map[i].1 as u64);
                proof {
                    lemma_entries_push(entries@, entry, want, i as int);
                }
                entries.push(entry);
                i += 1;
            }
            assert(want.take(i as int) =~= want);
            proof {
                lemma_entries_order(map@.map_values(|e: (u32, u32)| e.0), entry_views(entries@));
            }
            let encoded = build_fst_map(&entries);
            match self.finish_fst(const_name.as_str(), encoded, true) {
                Err(e) => {
                    return Err(e);
                },
                Ok(()) => {},
            }
        } else {
            self.ranges_slice(const_name.as_str(), map);
        }
        self.flush();
        Ok(())
    }

    /// Writes the map `name` from codepoints to texts: as a transducer
    /// from codepoints to the texts packed into numbers if a directory for
    /// transducers is set, else as a table of pairs. A text of more than 8
    /// bytes or with a NUL byte cannot be packed. Neither is written as C.
    pub fn codepoint_to_string(&mut self, name: &str, map: &Vec<(u32, String)>) -> (r: Result<
        (),
        Error,
    >)
        ensures
            r is Ok ==> final(self)@ == old(self)@.codepoint_to_string(name@, map@),
            old(self)@.opts.emit_c ==> r is Err,
            old(self)@.opts.fst_dir is None && !old(self)@.opts.emit_c ==> r is Ok,
            old(self)@.opts.fst_dir is Some && (exists|i: int|
                0 <= i < map@.len() && !packs(#[trigger] map@[i].1)) ==> r is Err,
            old(self)@.opts.fst_dir is Some && !old(self)@.opts.emit_c ==> (r is Ok <==> (forall|
                i: int,
            |
                0 <= i < map@.len() ==> packs(#[trigger] map@[i].1)) && codepoints_increase(
                map@.map_values(|e: (u32, String)| e.0),
            )),
    {
        self.header();
        self.separator();
        let const_name = rust_const_name(name);
        if self.writes_fsts() {
            let ghost want = packed_entries(map@);
            let mut entries: Vec<(Vec<u8>, u64)> = Vec::new();
            let mut i: usize = 0;
            assert(entry_views(entries@) =~= want.take(0));
            while i < map.len()
                invariant
                    i <= map@.len(),
                    want == packed_entries(map@),
                    entry_views(entries@) == want.take(i as int),
                    old(self)@.opts.fst_dir is Some,
                    forall|k: int| 0 <= k < i ==> packs(#[trigger] map@[k].1),
                decreases map@.len() - i,
            {
                let value = match pack_str(map[i].1.as_str()) {
                    Ok(value) => value,
                    Err(e) => {
                        return Err(e);
                    },
                };
                let entry = (key_bytes(u32_key(map[i].0)), value);
                proof {
                    lemma_entries_push(entries@, entry, want, i as int);
                }
                entries.push(entry);
                i += 1;
            }
            assert(want.take(i as int) =~= want);
            proof {
                lemma_entries_order(map@.map_values(|e: (u32, String)| e.0), entry_views(entries@));
            }
            let encoded = build_fst_map(&entries);
            match self.finish_fst(const_name.as_str(), encoded, true) {
                Err(e) => {
                    return Err(e);
                },
                Ok(()) => {},
            }
        } else {
            match self.codepoint_to_string_slice(const_name.as_str(), map) {
                Err(e) => {
                    return Err(e);
                },
                Ok(()) => {},
            }
        }
        self.flush();
        Ok(())
    }

    /// Writes the map `name` from texts to codepoints: as a transducer if
    /// a directory for transducers is set, else as a table of pairs. The
    /// keys of `map` stand in the order of strings. Neither is written as
    /// C.
    pub fn string_to_codepoint(&mut self, name: &str, map: &Vec<(String, u32)>) -> (r: Result<
        (),
        Error,
    >)
        requires
            texts_increase(map@.map_values(|e: (String, u32)| e.0@)),
        ensures
            r is Ok ==> final(self)@ == old(self)@.string_to_codepoint(name@, map@),
            old(self)@.opts.emit_c ==> r is Err,
            old(self)@.opts.fst_dir is None && !old(self)@.opts.emit_c ==> r is Ok,
            old(self)@.opts.fst_dir is Some && !old(self)@.opts.emit_c ==> (r is Ok
                <==> keys_increase(text_codepoint_entries(map@))),
    {
        self.header();
        self.separator();
        let const_name = rust_const_name(name);
        if self.writes_fsts() {
            let ghost want = text_codepoint_entries(map@);
            let mut entries: Vec<(Vec<u8>, u64)> = Vec::new();
            let mut i: usize = 0;
            assert(entry_views(entries@) =~= want.take(0));
            while i < map.len()
                invariant
                    i <= map@.len(),
                    want == text_codepoint_entries(map@),
                    entry_views(entries@) == want.take(i as int),
                decreases map@.len() - i,
            {
                let entry = (text_bytes(map[i].0.as_str()), map[i].1 as u64);
                proof {
                    lemma_entries_push(entries@, entry, want, i as int);
                }
                entries.push(entry);
                i += 1;
            }
            assert(want.take(i as int) =~= want);
            let encoded = build_fst_map(&entries);
            match self.finish_fst(const_name.as_str(), encoded, true) {
                Err(e) => {
                    return Err(e);
                },
                Ok(()) => {},
            }
        } else {
            match self.string_to_codepoint_slice(const_name.as_str(), map) {
                Err(e) => {
                    return Err(e);
                },
                Ok(()) => {},
            }
        }
        self.flush();
        Ok(())
    }

    /// Writes the map `name` from texts to numbers: as a transducer if a
    /// directory for transducers is set, else as a table of pairs. Fails
    /// if C is written.
    pub fn string_to_u64(&mut self, name: &str, map: &Vec<(String, u64)>) -> (r: Result<(), Error>)
        ensures
            r is Ok ==> final(self)@ == old(self)@.string_to_u64(name@, map@),
            old(self)@.opts.emit_c ==> r is Err && r->Err_0@
                == "cannot emit a "@ + "string->u64 map"@ + " as C code"@ && final(self)@ == old(
                self,
            )@,
            old(self)@.opts.fst_dir is None && !old(self)@.opts.emit_c ==> r is Ok,
            old(self)@.opts.fst_dir is Some && !old(self)@.opts.emit_c ==> (r is Ok
                <==> keys_increase(text_number_entries(map@))),
    {
        match self.ensure_not_c("string->u64 map") {
            Err(e) => {
                return Err(e);
            },
            Ok(()) => {},
        }
        self.header();
        self.separator();
        let const_name = rust_const_name(name);
        if self.writes_fsts() {
            let ghost want = text_number_entries(map@);
            let mut entries: Vec<(Vec<u8>, u64)> = Vec::new();
            let mut i: usize = 0;
            assert(entry_views(entries@) =~= want.take(0));
            while i < map.len()
                invariant
                    i <= map@.len(),
                    want == text_number_entries(map@),
                    entry_views(entries@) == want.take(i as int),
                decreases map@.len() - i,
            {
                let entry = (text_bytes(map[i].0.as_str()), map[i].1);
                proof {
                    lemma_entries_push(entries@, entry, want, i as int);
                }
                entries.push(entry);
                i += 1;
            }
            assert(want.take(i as int) =~= want);
            let encoded = build_fst_map(&entries);
            match self.finish_fst(const_name.as_str(), encoded, true) {
                Err(e) => {
                    return Err(e);
                },
                Ok(()) => {},
            }
        } else {
            self.string_to_u64_slice(const_name.as_str(), map);
        }
        self.flush();
        Ok(())
    }
}

/// The pairs of a codepoint and the index of its variant, for the first
/// `upto` variants.
pub open spec fn enum_pairs(map: Seq<(String, Vec<u32>)>, upto: int) -> Seq<(u32, u64)>
    decreases upto,
{
    if upto <= 0 {
        Seq::empty()
    } else {
        enum_pairs(map, upto - 1) + map[upto - 1].1@.map_values(|cp: u32| (cp, (upto - 1) as u64))
    }
}

/// The entry of a variant in the list of variants.
pub open spec fn variant_entry(variant: Seq<char>) -> Seq<char> {
    debug_str(variant) + ", "@
}

/// The names of the four files of a regex: the forward and the reverse
/// automaton in big-endian order, then both in little-endian order.
pub open spec fn regex_file_names(name: Seq<char>) -> (Seq<char>, Seq<char>, Seq<char>, Seq<char>) {
    (
        module_name(name) + ".fwd.bigendian.dfa"@,
        module_name(name) + ".rev.bigendian.dfa"@,
        module_name(name) + ".fwd.littleendian.dfa"@,
        module_name(name) + ".rev.littleendian.dfa"@,
    )
}

/// The names of the two files of an automaton: in big-endian and in
/// little-endian order.
pub open spec fn dfa_file_names(name: Seq<char>) -> (Seq<char>, Seq<char>) {
    (module_name(name) + ".bigendian.dfa"@, module_name(name) + ".littleendian.dfa"@)
}

/// The type of a regex of dense automata with state identifiers of the
/// type `idty`.
pub open spec fn dense_regex_type(idty: Seq<char>) -> Seq<char> {
    "Regex<::regex_automata::DenseDFA<&'static ["@ + idty + "], "@ + idty + ">>"@
}

/// The type of a regex of sparse automata with state identifiers of the
/// type `idty`.
pub open spec fn sparse_regex_type(idty: Seq<char>) -> Seq<char> {
    "Regex<::regex_automata::SparseDFA<&'static [u8], "@ + idty + ">>"@
}

/// The type of a dense automaton with state identifiers of the type
/// `idty`.
pub open spec fn dense_dfa_type(idty: Seq<char>) -> Seq<char> {
    "DenseDFA<&'static ["@ + idty + "], "@ + idty + ">"@
}

/// The type of a sparse automaton with state identifiers of the type
/// `idty`.
pub open spec fn sparse_dfa_type(idty: Seq<char>) -> Seq<char> {
    "SparseDFA<&'static [u8], "@ + idty + ">"@
}

impl WriterModel {
    /// The writer with the list of variants of `name` and the map from
    /// codepoints to the indices of their variants.
    pub open spec fn ranges_to_enum(
        self,
        name: Seq<char>,
        variants: Seq<Seq<char>>,
        merged: Seq<(u32, u64)>,
    ) -> WriterModel {
        self.header().separator().raw("pub const "@).raw(const_name(name)).raw(
            "_ENUM: &'static [&'static str] = &[\n"@,
        ).put_all(variants.map_values(|v: Seq<char>| variant_entry(v))).raw(
            "];\n"@,
        ).ranges_to_unsigned_integer(name, merged).flushed()
    }

    /// The writer with a regex of two automata for either byte order.
    pub open spec fn regex(
        self,
        name: Seq<char>,
        full_ty: Seq<char>,
        short_ty: Seq<char>,
        align_to: Seq<char>,
        files: (Seq<u8>, Seq<u8>, Seq<u8>, Seq<u8>),
    ) -> WriterModel {
        let names = regex_file_names(name);
        self.header().separator().with_file(names.0, files.0).with_file(names.1, files.1).with_file(
            names.2,
            files.2,
        ).with_file(names.3, files.3).raw("#[cfg(target_endian = \"big\")]\n"@).regex_static(
            name,
            full_ty,
            short_ty,
            align_to,
            names.0,
            names.1,
        ).separator().raw("#[cfg(target_endian = \"little\")]\n"@).regex_static(
            name,
            full_ty,
            short_ty,
            align_to,
            names.2,
            names.3,
        )
    }

    /// The writer with an automaton for either byte order.
    pub open spec fn dfa(
        self,
        name: Seq<char>,
        full_ty: Seq<char>,
        short_ty: Seq<char>,
        align_to: Seq<char>,
        files: (Seq<u8>, Seq<u8>),
    ) -> WriterModel {
        let names = dfa_file_names(name);
        self.header().separator().with_file(names.0, files.0).with_file(names.1, files.1).raw(
            "#[cfg(target_endian = \"big\")]\n"@,
        ).dfa_static(name, full_ty, short_ty, align_to, names.0).separator().raw(
            "#[cfg(target_endian = \"little\")]\n"@,
        ).dfa_static(name, full_ty, short_ty, align_to, names.1)
    }
}

impl Writer {
    /// Writes a map from ranges of codepoints to the variants of an
    /// enumeration: the list of the variants, and the map from codepoints
    /// to the indices of their variants. `enum_map` gives the codepoints
    /// of each variant; a codepoint of several variants goes to the last
    /// of them. The variants stand in the order of strings. Fails if C is
    /// written.
    pub fn ranges_to_enum(&mut self, name: &str, enum_map: &Vec<(String, Vec<u32>)>) -> (r: Result<
        (),
        Error,
    >)
        requires
            texts_increase(enum_map@.map_values(|e: (String, Vec<u32>)| e.0@)),
        ensures
            old(self)@.opts.emit_c ==> r is Err && final(self)@ == old(self)@ && r->Err_0@
                == "cannot emit a "@ + "range->enum map"@ + " as C code"@,
            !old(self)@.opts.emit_c && old(self)@.opts.fst_dir is None ==> r is Ok,
            r is Ok ==> exists|merged: Seq<(u32, u64)>| #[trigger]
                is_merged(enum_pairs(enum_map@, enum_map@.len() as int), merged) && final(self)@
                    == old(self)@.ranges_to_enum(
                    name@,
                    enum_map@.map_values(|e: (String, Vec<u32>)| e.0@),
                    merged,
                ),
    {
        match self.ensure_not_c("range->enum map") {
            Err(e) => {
                return Err(e);
            },
            Ok(()) => {},
        }
        self.header();
        self.separator();
        self.raw("pub const ");
        self.raw(rust_const_name(name).as_str());
        self.raw("_ENUM: &'static [&'static str] = &[\n");
        let ghost variants = enum_map@.map_values(|e: (String, Vec<u32>)| e.0@);
        let ghost want = variants.map_values(|v: Seq<char>| variant_entry(v));
        let mut entries: Vec<String> = Vec::new();
        let mut pairs: Vec<(u32, u64)> = Vec::new();
        let mut i: usize = 0;
        while i < enum_map.len()
            invariant
                i <= enum_map@.len(),
                variants == enum_map@.map_values(|e: (String, Vec<u32>)| e.0@),
                want == variants.map_values(|v: Seq<char>| variant_entry(v)),
                texts(entries@) == want.take(i as int),
                pairs@ == enum_pairs(enum_map@, i as int),
            decreases enum_map@.len() - i,
        {
            let mut entry = debug_string(enum_map[i].0.as_str());
            entry.append(", ");
            proof {
                crate::writer::lemma_texts_push(entries@, entry, want, i as int);
            }
            entries.push(entry);
            let ghost before = pairs@;
            let set = &enum_map[i].1;
            let mut k: usize = 0;
            while k < set.len()
                invariant
                    k <= set@.len(),
                    pairs@ == before + set@.take(k as int).map_values(|cp: u32| (cp, i as u64)),
                decreases set@.len() - k,
            {
                pairs.push((set[k], i as u64));
                k += 1;
                assert(pairs@ =~= before + set@.take(k as int).map_values(
                    |cp: u32| (cp, i as u64),
                ));
            }
            assert(set@.take(k as int) =~= set@);
            i += 1;
        }
        assert(want.take(i as int) =~= want);
        self.put_all(&entries);
        self.raw("];\n");
        let merged = merge_pairs(&pairs);
        match self.ranges_to_unsigned_integer(name, &merged) {
            Err(e) => {
                return Err(e);
            },
            Ok(()) => {},
        }
        self.flush();
        Ok(())
    }

    /// Writes a regex of dense automata: notes the files of the forward
    /// and of the reverse automaton in either byte order, and writes the
    /// text that reads them in. The state identifiers have `id_size`
    /// bytes. Fails if C is written.
    pub fn dense_regex(
        &mut self,
        const_name: &str,
        id_size: usize,
        fwd_be: Vec<u8>,
        rev_be: Vec<u8>,
        fwd_le: Vec<u8>,
        rev_le: Vec<u8>,
    ) -> (r: Result<(), Error>)
        requires
            id_size == 1 || id_size == 2 || id_size == 4 || id_size == 8,
        ensures
            match old(self)@.opts.not_c("dense regex"@) {
                Some(msg) => r is Err && r->Err_0@ == msg && final(self)@ == old(self)@,
                None => r is Ok && final(self)@ == old(self)@.regex(
                    const_name@,
                    dense_regex_type(uint_type(id_size)),
                    "DenseDFA"@,
                    uint_type(id_size),
                    (fwd_be@, rev_be@, fwd_le@, rev_le@),
                ),
            },
    {
        match self.ensure_not_c("dense regex") {
            Err(e) => {
                return Err(e);
            },
            Ok(()) => {},
        }
        let idty = rust_uint_type(id_size);
        let mut ty = String::from_str("Regex<::regex_automata::DenseDFA<&'static [");
        ty.append(idty);
        ty.append("], ");
        ty.append(idty);
        ty.append(">>");
        self.regex(const_name, ty.as_str(), "DenseDFA", idty, fwd_be, rev_be, fwd_le, rev_le);
        Ok(())
    }

    /// Writes a regex of sparse automata, as `dense_regex` does for dense
    /// ones.
    pub fn sparse_regex(
        &mut self,
        const_name: &str,
        id_size: usize,
        fwd_be: Vec<u8>,
        rev_be: Vec<u8>,
        fwd_le: Vec<u8>,
        rev_le: Vec<u8>,
    ) -> (r: Result<(), Error>)
        requires
            id_size == 1 || id_size == 2 || id_size == 4 || id_size == 8,
        ensures
            match old(self)@.opts.not_c("sparse regex"@) {
                Some(msg) => r is Err && r->Err_0@ == msg && final(self)@ == old(self)@,
                None => r is Ok && final(self)@ == old(self)@.regex(
                    const_name@,
                    sparse_regex_type(uint_type(id_size)),
                    "SparseDFA"@,
                    "u8"@,
                    (fwd_be@, rev_be@, fwd_le@, rev_le@),
                ),
            },
    {
        match self.ensure_not_c("sparse regex") {
            Err(e) => {
                return Err(e);
            },
            Ok(()) => {},
        }
        let idty = rust_uint_type(id_size);
        let mut ty = String::from_str("Regex<::regex_automata::SparseDFA<&'static [u8], ");
        ty.append(idty);
        ty.append(">>");
        self.regex(const_name, ty.as_str(), "SparseDFA", "u8", fwd_be, rev_be, fwd_le, rev_le);
        Ok(())
    }

    /// Writes a dense automaton: notes its files in either byte order, and
    /// writes the text that reads them in. The state identifiers have
    /// `id_size` bytes. Fails if C is written.
    pub fn dense_dfa(&mut self, const_name: &str, id_size: usize, be: Vec<u8>, le: Vec<u8>) -> (r:
        Result<(), Error>)
        requires
            id_size == 1 || id_size == 2 || id_size == 4 || id_size == 8,
        ensures
            match old(self)@.opts.not_c("dense dfa"@) {
                Some(msg) => r is Err && r->Err_0@ == msg && final(self)@ == old(self)@,
                None => r is Ok && final(self)@ == old(self)@.dfa(
                    const_name@,
                    dense_dfa_type(uint_type(id_size)),
                    "DenseDFA"@,
                    uint_type(id_size),
                    (be@, le@),
                ),
            },
    {
        match self.ensure_not_c("dense dfa") {
            Err(e) => {
                return Err(e);
            },
            Ok(()) => {},
        }
        let idty = rust_uint_type(id_size);
        let mut ty = String::from_str("DenseDFA<&'static [");
        ty.append(idty);
        ty.append("], ");
        ty.append(idty);
        ty.append(">");
        self.dfa(const_name, ty.as_str(), "DenseDFA", idty, be, le);
        Ok(())
    }

    /// Writes a sparse automaton, as `dense_dfa` does a dense one.
    pub fn sparse_dfa(&mut self, const_name: &str, id_size: usize, be: Vec<u8>, le: Vec<u8>) -> (r:
        Result<(), Error>)
        requires
            id_size == 1 || id_size == 2 || id_size == 4 || id_size == 8,
        ensures
            match old(self)@.opts.not_c("sparse dfa"@) {
                Some(msg) => r is Err && r->Err_0@ == msg && final(self)@ == old(self)@,
                None => r is Ok && final(self)@ == old(self)@.dfa(
                    const_name@,
                    sparse_dfa_type(uint_type(id_size)),
                    "SparseDFA"@,
                    "u8"@,
                    (be@, le@),
                ),
            },
    {
        match self.ensure_not_c("sparse dfa") {
            Err(e) => {
                return Err(e);
            },
            Ok(()) => {},
        }
        let idty = rust_uint_type(id_size);
        let mut ty = String::from_str("SparseDFA<&'static [u8], ");
        ty.append(idty);
        ty.append(">");
        self.dfa(const_name, ty.as_str(), "SparseDFA", "u8", be, le);
        Ok(())
    }

    /// Notes the four files of a regex and writes the text for either
    /// byte order.
    fn regex(
        &mut self,
        const_name: &str,
        full_ty: &str,
        short_ty: &str,
        align_to: &str,
        fwd_be: Vec<u8>,
        rev_be: Vec<u8>,
        fwd_le: Vec<u8>,
        rev_le: Vec<u8>,
    )
        requires
            !old(self)@.opts.emit_c,
        ensures
            final(self)@ == old(self)@.regex(
                const_name@,
                full_ty@,
                short_ty@,
                align_to@,
                (fwd_be@, rev_be@, fwd_le@, rev_le@),
            ),
    {
        self.header();
        self.separator();
        let rust_name = rust_module_name(const_name);
        let mut fname_fwd_be = rust_name.clone();
        fname_fwd_be.append(".fwd.bigendian.dfa");
        let mut fname_rev_be = rust_name.clone();
        fname_rev_be.append(".rev.bigendian.dfa");
        let mut fname_fwd_le = rust_name.clone();
        fname_fwd_le.append(".fwd.littleendian.dfa");
        let mut fname_rev_le = rust_name.clone();
        fname_rev_le.append(".rev.littleendian.dfa");
        self.add_file(fname_fwd_be.clone(), fwd_be);
        self.add_file(fname_rev_be.clone(), rev_be);
        self.add_file(fname_fwd_le.clone(), fwd_le);
        self.add_file(fname_rev_le.clone(), rev_le);
        self.raw("#[cfg(target_endian = \"big\")]\n");
        let _ = self.write_regex_static(
            const_name,
            full_ty,
            short_ty,
            align_to,
            fname_fwd_be.as_str(),
            fname_rev_be.as_str(),
        );
        self.separator();
        self.raw("#[cfg(target_endian = \"little\")]\n");
        let _ = self.write_regex_static(
            const_name,
            full_ty,
            short_ty,
            align_to,
            fname_fwd_le.as_str(),
            fname_rev_le.as_str(),
        );
    }

    /// Notes the two files of an automaton and writes the text for either
    /// byte order.
    fn dfa(
        &mut self,
        const_name: &str,
        full_ty: &str,
        short_ty: &str,
        align_to: &str,
        be: Vec<u8>,
        le: Vec<u8>,
    )
        requires
            !old(self)@.opts.emit_c,
        ensures
            final(self)@ == old(self)@.dfa(const_name@, full_ty@, short_ty@, align_to@, (be@, le@)),
    {
        self.header();
        self.separator();
        let rust_name = rust_module_name(const_name);
        let mut fname_be = rust_name.clone();
        fname_be.append(".bigendian.dfa");
        let mut fname_le = rust_name.clone();
        fname_le.append(".littleendian.dfa");
        self.add_file(fname_be.clone(), be);
        self.add_file(fname_le.clone(), le);
        self.raw("#[cfg(target_endian = \"big\")]\n");
        let _ = self.write_dfa_static(const_name, full_ty, short_ty, align_to, fname_be.as_str());
        self.separator();
        self.raw("#[cfg(target_endian = \"little\")]\n");
        let _ = self.write_dfa_static(const_name, full_ty, short_ty, align_to, fname_le.as_str());
    }
}

} // verus!
