//! The writer of tables as source text.
//!
//! A writer puts its text into a buffer. Whoever owns the writer decides
//! where the text goes.

use vstd::prelude::*;
use vstd::string::*;
use crate::error::Error;
use crate::line_writer::{LineModel, LineWriter};
use crate::text::{
    ascii_lower,
    ascii_upper,
    char_from_u32,
    debug_char,
    debug_char_string,
    debug_str,
    debug_string,
    decimal,
    decimal_string,
    replace_char,
    sort_strings,
    text_le,
    texts,
    texts_increase,
    to_ascii_lowercase,
    to_ascii_uppercase,
    to_uppercase,
    uppercase,
};

verus! {

/// What a writer is set up with.
pub struct OptionsModel {
    pub name: Seq<char>,
    pub table_name: Seq<char>,
    pub columns: u64,
    pub char_literals: bool,
    pub fst_dir: Option<Seq<char>>,
    pub trie_set: bool,
    pub dfa_dir: Option<Seq<char>>,
    pub emit_c: bool,
    pub invocation: Seq<char>,
}

/// What a writer holds: its text, whether the header stands in it, and
/// what it was set up with.
pub struct WriterModel {
    pub text: LineModel,
    pub wrote_header: bool,
    pub opts: OptionsModel,
    /// The files that are to be written beside the text: their names and
    /// what they hold.
    pub files: Seq<(Seq<char>, Seq<u8>)>,
}

/// The name of a constant for `s`: full stops become underscores and
/// ASCII letters upper case.
pub open spec fn const_name(s: Seq<char>) -> Seq<char> {
    s.map_values(
        |c: char|
            if c == '.' {
                '_'
            } else {
                c
            },
    ).map_values(|c: char| ascii_upper(c))
}

/// The name of a module for `s`: ASCII letters become lower case.
pub open spec fn module_name(s: Seq<char>) -> Seq<char> {
    s.map_values(|c: char| ascii_lower(c))
}

/// The smallest unsigned integer type that holds `n`.
pub open spec fn unsigned_type(n: u64) -> Seq<char> {
    if n <= 0xFF {
        "u8"@
    } else if n <= 0xFFFF {
        "u16"@
    } else if n <= 0xFFFF_FFFF {
        "u32"@
    } else {
        "u64"@
    }
}

/// The value whose bytes, the least significant first, are the characters
/// of `s`.
pub open spec fn packed(s: Seq<u8>) -> nat
    decreases s.len(),
{
    if s.len() == 0 {
        0
    } else {
        s[0] as nat + 256 * packed(s.drop_first())
    }
}

impl OptionsModel {
    /// The type of a codepoint in the text.
    pub open spec fn codepoint_type(self) -> Seq<char> {
        if self.char_literals {
            "char"@
        } else {
            "u32"@
        }
    }

    /// A codepoint in the text: a character literal or a number. There is
    /// no character literal for a surrogate.
    pub open spec fn codepoint(self, cp: u32) -> Option<Seq<char>> {
        if self.char_literals {
            if vstd::utf8::is_scalar(cp) {
                Some(debug_char(cp as char))
            } else {
                None
            }
        } else {
            Some(decimal(cp as nat))
        }
    }

    /// The name of a C constant for `s`: the name of a constant, behind the
    /// table name and an underscore unless the table name is empty or
    /// begins with it.
    pub open spec fn c_const_name(self, s: Seq<char>) -> Seq<char> {
        if self.table_name.len() > 0 && !const_name(s).is_prefix_of(self.table_name) {
            self.table_name + "_"@ + const_name(s)
        } else {
            const_name(s)
        }
    }

    /// The error for something that cannot be written as C, if C is
    /// written.
    pub open spec fn not_c(self, what: Seq<char>) -> Option<Seq<char>> {
        if self.emit_c {
            Some("cannot emit a "@ + what + " as C code"@)
        } else {
            None
        }
    }
}

impl WriterModel {
    /// The writer with `s` on the line.
    pub open spec fn put(self, s: Seq<char>) -> WriterModel {
        WriterModel { text: self.text.write_str(s), ..self }
    }

    /// The writer with each text of `parts` on the line.
    pub open spec fn put_all(self, parts: Seq<Seq<char>>) -> WriterModel {
        WriterModel { text: self.text.write_all(parts), ..self }
    }

    /// The writer with `s` written out.
    pub open spec fn raw(self, s: Seq<char>) -> WriterModel {
        WriterModel { text: self.text.write(s), ..self }
    }

    /// The writer with the line written out.
    pub open spec fn flushed(self) -> WriterModel {
        WriterModel { text: self.text.flush_line(), ..self }
    }

    /// The writer with the header, if it did not have it yet.
    pub open spec fn header(self) -> WriterModel {
        if self.wrote_header {
            self
        } else {
            let first = (WriterModel { wrote_header: true, ..self }).raw(
                "/* DO NOT EDIT THIS FILE. IT WAS AUTOMATICALLY GENERATED BY:\n *\n *  "@,
            ).raw(self.opts.invocation).raw("\n *\n * ucd-generate is available on crates.io.\n"@);
            if !self.opts.emit_c {
                first.raw(" */\n"@)
            } else {
                first.raw(
                    " *\n * Note: The final item of each array is padding, so you must\n * use it's corresponding <arr>_SIZE constant, rather than\n * using sizeof or similar to determine the size.\n */\n\n#ifndef UCD_GENERATE_DATA_LINKAGE\n#define UCD_GENERATE_DATA_LINKAGE static\n#endif\n\n"@,
                )
            }
        }
    }

    /// The writer with an empty line.
    pub open spec fn separator(self) -> WriterModel {
        self.raw("\n"@)
    }

    /// The writer with the start of a C array of `size` items of
    /// `item_type` under the name of `name`.
    pub open spec fn begin_c_array(
        self,
        name: Seq<char>,
        size: nat,
        item_type: Seq<char>,
        inner: Option<nat>,
    ) -> WriterModel {
        let id = self.opts.c_const_name(name);
        let defined = self.raw("#define "@ + id + "_SIZE "@ + decimal(size) + "\n\n"@);
        let declared = match inner {
            Some(len) => defined.raw(
                "UCD_GENERATE_DATA_LINKAGE const "@ + item_type + " "@ + id + "["@ + id
                    + "_SIZE + 1]["@ + decimal(len) + "] = {\n"@,
            ),
            None => defined.raw(
                "UCD_GENERATE_DATA_LINKAGE const "@ + item_type + " "@ + id + "["@ + id
                    + "_SIZE + 1] = {\n"@,
            ),
        };
        if size == 0 {
            declared.put("0"@)
        } else {
            declared
        }
    }

    /// The writer with the end of a C array.
    pub open spec fn end_c_array(self) -> WriterModel {
        self.raw("};\n"@)
    }
}

/// The entry of a name in the list of names.
pub open spec fn name_entry(name: Seq<char>) -> Seq<char> {
    "("@ + debug_str(name) + ", "@ + const_name(name) + "), "@
}

/// The entry of a name in the C list of names.
pub open spec fn c_name_entry(opts: OptionsModel, name: Seq<char>) -> Seq<char> {
    "{"@ + debug_str(name) + ", "@ + opts.c_const_name(name) + "_SIZE, "@ + opts.c_const_name(name)
        + "}, "@
}

/// The entry of a pair of texts.
pub open spec fn pair_entry(key: Seq<char>, value: Seq<char>) -> Seq<char> {
    "("@ + debug_str(key) + ", "@ + debug_str(value) + "), "@
}

/// Heuristically, the name of a Rust constant for `s`.
pub fn rust_const_name(s: &str) -> (name: String)
    ensures
        name@ == const_name(s@),
{
    let replaced = replace_char(s, '.', '_');
    assert(replaced@ =~= s@.map_values(
        |c: char|
            if c == '.' {
                '_'
            } else {
                c
            },
    ));
    to_ascii_uppercase(replaced.as_str())
}

/// Heuristically, the name of a Rust module for `s`.
pub fn rust_module_name(s: &str) -> (name: String)
    ensures
        name@ == module_name(s@),
{
    to_ascii_lowercase(s)
}

/// The smallest unsigned integer type that holds `n`.
pub fn smallest_unsigned_type(n: u64) -> (ty: &'static str)
    ensures
        ty@ == unsigned_type(n),
{
    if n <= 0xFF {
        "u8"
    } else if n <= 0xFFFF {
        "u16"
    } else if n <= 0xFFFF_FFFF {
        "u32"
    } else {
        "u64"
    }
}

/// The bytes of `s` as one number, the first byte the least significant.
/// Fails if `s` has more than 8 bytes or a NUL byte.
pub fn pack_str(s: &str) -> (r: Result<u64, Error>)
    ensures
        r is Ok <==> s.spec_bytes().len() <= 8 && !s.spec_bytes().contains(0u8),
        r is Ok ==> r->Ok_0 as nat == packed(s.spec_bytes()),
        r is Err ==> r->Err_0@ == "cannot encode string "@ + debug_str(s@) + if s.spec_bytes().len()
            > 8 {
            " (too long)"@
        } else {
            " (contains NUL byte)"@
        },
{
    let bytes = s.as_bytes();
    if bytes.len() > 8 {
        let mut msg = String::from_str("cannot encode string ");
        msg.append(debug_string(s).as_str());
        msg.append(" (too long)");
        return Err(Error::Other(msg));
    }
    let mut value: u64 = 0;
    let mut i: usize = bytes.len();
    proof {
        assert(bytes@.subrange(i as int, bytes@.len() as int) =~= Seq::<u8>::empty());
    }
    while i > 0
        invariant
            i <= bytes@.len() <= 8,
            bytes@ == s.spec_bytes(),
            value as nat == packed(bytes@.subrange(i as int, bytes@.len() as int)),
            (value as nat) < pow256((bytes@.len() - i) as nat),
            forall|k: int| i <= k < bytes@.len() ==> bytes@[k] != 0,
        decreases i,
    {
        i -= 1;
        let b = bytes[i];
        if b == 0 {
            assert(bytes@[i as int] == 0u8);
            let mut msg = String::from_str("cannot encode string ");
            msg.append(debug_string(s).as_str());
            msg.append(" (contains NUL byte)");
            return Err(Error::Other(msg));
        }
        proof {
            let tail = bytes@.subrange(i as int, bytes@.len() as int);
            assert(tail.drop_first() =~= bytes@.subrange(i + 1, bytes@.len() as int));
            assert(tail[0] == b);
            lemma_pow256((bytes@.len() - i - 1) as nat);
            assert(256 * (value as nat) + 255 < 256 * pow256((bytes@.len() - i - 1) as nat))
                by (nonlinear_arith)
                requires
                    (value as nat) < pow256((bytes@.len() - i - 1) as nat),
            ;
            lemma_pow256_bound((bytes@.len() - i) as nat);
        }
        value = value * 256 + b as u64;
    }
    proof {
        assert(bytes@.subrange(0, bytes@.len() as int) =~= bytes@);
        assert forall|k: int| 0 <= k < bytes@.len() implies bytes@[k] != 0 by {}
    }
    Ok(value)
}

/// 256 to the power `n`.
pub open spec fn pow256(n: nat) -> nat
    decreases n,
{
    if n == 0 {
        1
    } else {
        256 * pow256((n - 1) as nat)
    }
}

/// Powers of 256 step by a factor of 256.
pub proof fn lemma_pow256(n: nat)
    ensures
        pow256(n + 1) == 256 * pow256(n),
        pow256(n) >= 1,
    decreases n,
{
    if n > 0 {
        lemma_pow256((n - 1) as nat);
    }
}

/// Up to the eighth, the powers of 256 fit in 64 bits.
pub proof fn lemma_pow256_bound(n: nat)
    requires
        n <= 8,
    ensures
        pow256(n) <= 0x1_0000_0000_0000_0000,
{
    reveal_with_fuel(pow256, 10);
}

/// What a writer is set up with.
struct WriterOptions {
    name: String,
    table_name: String,
    columns: u64,
    char_literals: bool,
    fst_dir: Option<String>,
    trie_set: bool,
    dfa_dir: Option<String>,
    emit_c: bool,
    invocation: String,
}

impl WriterOptions {
    spec fn view(&self) -> OptionsModel {
        OptionsModel {
            name: self.name@,
            table_name: self.table_name@,
            columns: self.columns,
            char_literals: self.char_literals,
            fst_dir: match self.fst_dir {
                Some(dir) => Some(dir@),
                None => None,
            },
            trie_set: self.trie_set,
            dfa_dir: match self.dfa_dir {
                Some(dir) => Some(dir@),
                None => None,
            },
            emit_c: self.emit_c,
            invocation: self.invocation@,
        }
    }

    fn copy(&self) -> (r: WriterOptions)
        ensures
            r@ == self@,
    {
        WriterOptions {
            name: self.name.clone(),
            table_name: self.table_name.clone(),
            columns: self.columns,
            char_literals: self.char_literals,
            fst_dir: match &self.fst_dir {
                Some(dir) => Some(dir.clone()),
                None => None,
            },
            trie_set: self.trie_set,
            dfa_dir: match &self.dfa_dir {
                Some(dir) => Some(dir.clone()),
                None => None,
            },
            emit_c: self.emit_c,
            invocation: self.invocation.clone(),
        }
    }
}

/// Sets up writers of tables.
pub struct WriterBuilder(WriterOptions);

impl WriterBuilder {
    /// What the builder sets a writer up with.
    pub closed spec fn view(&self) -> OptionsModel {
        self.0@
    }

    /// A builder of writers for the module `name`. The table name is
    /// `name` in upper case, characters are written as numbers, and
    /// neither a directory nor C is asked for.
    pub fn new(name: &str) -> (builder: WriterBuilder)
        ensures
            builder@ == (OptionsModel {
                name: name@,
                table_name: uppercase(name@),
                columns: 79,
                char_literals: false,
                fst_dir: None,
                trie_set: false,
                dfa_dir: None,
                emit_c: false,
                invocation: Seq::empty(),
            }),
    {
        WriterBuilder(
            WriterOptions {
                name: String::from_str(name),
                table_name: to_uppercase(name),
                columns: 79,
                char_literals: false,
                fst_dir: None,
                trie_set: false,
                dfa_dir: None,
                emit_c: false,
                invocation: String::new(),
            },
        )
    }

    /// A writer, set up as this builder says, that appends its text to
    /// `wtr`.
    pub fn from_writer(&self, wtr: String) -> (writer: Writer)
        ensures
            writer@ == (WriterModel {
                text: LineModel { out: wtr@, line: Seq::empty(), indent: "  "@, columns: 79 },
                wrote_header: false,
                opts: self@,
                files: Seq::empty(),
            }),
    {
        let writer = Writer {
            wtr: LineWriter::new(wtr),
            wrote_header: false,
            opts: self.0.copy(),
            files: Vec::new(),
        };
        assert(writer@.files =~= Seq::empty());
        writer
    }

    /// A writer whose tables go to files in the directory `fst_dir` as
    /// FSTs. It appends its text to `wtr`.
    pub fn from_fst_dir(&self, fst_dir: &str, wtr: String) -> (writer: Writer)
        ensures
            writer@ == (WriterModel {
                text: LineModel { out: wtr@, line: Seq::empty(), indent: "  "@, columns: 79 },
                wrote_header: false,
                opts: OptionsModel { fst_dir: Some(fst_dir@), ..self@ },
                files: Seq::empty(),
            }),
    {
        let mut opts = self.0.copy();
        opts.fst_dir = Some(String::from_str(fst_dir));
        let writer = Writer { wtr: LineWriter::new(wtr), wrote_header: false, opts, files: Vec::new() };
        assert(writer@.files =~= Seq::empty());
        writer
    }

    /// A writer whose automata go to files in the directory `dfa_dir`. It
    /// appends its text to `wtr`.
    pub fn from_dfa_dir(&self, dfa_dir: &str, wtr: String) -> (writer: Writer)
        ensures
            writer@ == (WriterModel {
                text: LineModel { out: wtr@, line: Seq::empty(), indent: "  "@, columns: 79 },
                wrote_header: false,
                opts: OptionsModel { dfa_dir: Some(dfa_dir@), ..self@ },
                files: Seq::empty(),
            }),
    {
        let mut opts = self.0.copy();
        opts.dfa_dir = Some(String::from_str(dfa_dir));
        let writer = Writer { wtr: LineWriter::new(wtr), wrote_header: false, opts, files: Vec::new() };
        assert(writer@.files =~= Seq::empty());
        writer
    }

    /// Sets the name of the table. When C is written, it also stands in
    /// front of every name, unless it is empty.
    pub fn table_name(&mut self, name: &str) -> (builder: &mut WriterBuilder)
        ensures
            builder@ == (OptionsModel { table_name: name@, ..old(self)@ }),
            *final(self) == *final(builder),
    {
        self.0.table_name = String::from_str(name);
        self
    }

    /// Sets the width of a line.
    pub fn columns(&mut self, columns: u64) -> (builder: &mut WriterBuilder)
        ensures
            builder@ == (OptionsModel { columns, ..old(self)@ }),
            *final(self) == *final(builder),
    {
        self.0.columns = columns;
        self
    }

    /// Asks for character literals in place of numbers. Codepoints that
    /// are no characters are left out then.
    pub fn char_literals(&mut self, yes: bool) -> (builder: &mut WriterBuilder)
        ensures
            builder@ == (OptionsModel { char_literals: yes, ..old(self)@ }),
            *final(self) == *final(builder),
    {
        self.0.char_literals = yes;
        self
    }

    /// Asks for a trie in place of a list of ranges for a set of
    /// codepoints.
    pub fn trie_set(&mut self, yes: bool) -> (builder: &mut WriterBuilder)
        ensures
            builder@ == (OptionsModel { trie_set: yes, ..old(self)@ }),
            *final(self) == *final(builder),
    {
        self.0.trie_set = yes;
        self
    }

    /// Asks for C in place of Rust.
    pub fn emit_c(&mut self, yes: bool) -> (builder: &mut WriterBuilder)
        ensures
            builder@ == (OptionsModel { emit_c: yes, ..old(self)@ }),
            *final(self) == *final(builder),
    {
        self.0.emit_c = yes;
        self
    }

    /// Sets the command line that the header names as the origin of the
    /// text.
    pub fn invocation(&mut self, command_line: &str) -> (builder: &mut WriterBuilder)
        ensures
            builder@ == (OptionsModel { invocation: command_line@, ..old(self)@ }),
            *final(self) == *final(builder),
    {
        self.0.invocation = String::from_str(command_line);
        self
    }
}

/// A writer of tables as source text.
pub struct Writer {
    wtr: LineWriter,
    wrote_header: bool,
    opts: WriterOptions,
    files: Vec<(String, Vec<u8>)>,
}

impl Writer {
    /// What the writer holds.
    pub closed spec fn view(&self) -> WriterModel {
        WriterModel {
            text: self.wtr@,
            wrote_header: self.wrote_header,
            opts: self.opts@,
            files: self.files@.map_values(|f: (String, Vec<u8>)| (f.0@, f.1@)),
        }
    }

    /// The files that are to be written beside the text: their names and
    /// what they hold.
    pub fn files(&self) -> (files: &Vec<(String, Vec<u8>)>)
        ensures
            files@.map_values(|f: (String, Vec<u8>)| (f.0@, f.1@)) == self@.files,
    {
        &self.files
    }

    /// Notes that the file `name` is to be written with `bytes`.
    pub(crate) fn add_file(&mut self, name: String, bytes: Vec<u8>)
        ensures
            final(self)@.opts == old(self)@.opts,
            final(self)@ == (WriterModel {
                files: old(self)@.files.push((name@, bytes@)),
                ..old(self)@
            }),
    {
        let ghost before = self.files@;
        self.files.push((name, bytes));
        assert(self.files@.map_values(|f: (String, Vec<u8>)| (f.0@, f.1@)) =~= before.map_values(
            |f: (String, Vec<u8>)| (f.0@, f.1@),
        ).push((name@, bytes@)));
    }

    /// Makes every further line start with `s`.
    pub(crate) fn indent(&mut self, s: &str)
        ensures
            final(self)@.opts == old(self)@.opts,
            final(self)@ == (WriterModel {
                text: LineModel { indent: s@, ..old(self)@.text },
                ..old(self)@
            }),
    {
        self.wtr.indent(s);
    }

    /// Writes out the line that is being filled.
    pub(crate) fn flush(&mut self)
        ensures
            final(self)@.opts == old(self)@.opts,
            final(self)@ == old(self)@.flushed(),
    {
        self.wtr.flush();
    }

    /// Whether C is written.
    pub(crate) fn emits_c(&self) -> (yes: bool)
        ensures
            yes == self@.opts.emit_c,
    {
        self.opts.emit_c
    }

    /// Whether sets of codepoints are written as tries.
    pub(crate) fn writes_tries(&self) -> (yes: bool)
        ensures
            yes == self@.opts.trie_set,
    {
        self.opts.trie_set
    }

    /// The text written out so far.
    pub fn output(&self) -> (text: &str)
        ensures
            text@ == self@.text.out,
    {
        self.wtr.output()
    }

    /// Ends the writing and gives the text.
    pub fn into_inner(self) -> (text: String)
        ensures
            text@ == self@.text.flush_line().out,
    {
        self.wtr.into_inner()
    }

    /// Whether the tables go to files in a directory as FSTs.
    pub fn writes_fsts(&self) -> (yes: bool)
        ensures
            yes == self@.opts.fst_dir is Some,
    {
        self.opts.fst_dir.is_some()
    }

    pub(crate) fn put(&mut self, s: &str)
        ensures
            final(self)@.opts == old(self)@.opts,
            final(self)@ == old(self)@.put(s@),
    {
        self.wtr.write_str(s);
    }

    pub(crate) fn raw(&mut self, s: &str)
        ensures
            final(self)@.opts == old(self)@.opts,
            final(self)@ == old(self)@.raw(s@),
    {
        self.wtr.write(s);
    }

    pub(crate) fn header(&mut self)
        ensures
            final(self)@.opts == old(self)@.opts,
            final(self)@ == old(self)@.header(),
    {
        if self.wrote_header {
            return ;
        }
        self.wrote_header = true;
        self.raw("/* DO NOT EDIT THIS FILE. IT WAS AUTOMATICALLY GENERATED BY:\n *\n *  ");
        let line = self.opts.invocation.clone();
        self.raw(line.as_str());
        self.raw("\n *\n * ucd-generate is available on crates.io.\n");
        if !self.opts.emit_c {
            self.raw(" */\n");
            return ;
        }
        self.raw(
            " *\n * Note: The final item of each array is padding, so you must\n * use it's corresponding <arr>_SIZE constant, rather than\n * using sizeof or similar to determine the size.\n */\n\n#ifndef UCD_GENERATE_DATA_LINKAGE\n#define UCD_GENERATE_DATA_LINKAGE static\n#endif\n\n",
        );
    }

    pub(crate) fn separator(&mut self)
        ensures
            final(self)@.opts == old(self)@.opts,
            final(self)@ == old(self)@.separator(),
    {
        self.raw("\n");
    }

    /// The source text for the codepoint `cp`: a number or a character
    /// literal, as the writer was set up. There is no character literal
    /// for a surrogate.
    pub(crate) fn rust_codepoint(&self, cp: u32) -> (text: Option<String>)
        ensures
            match self@.opts.codepoint(cp) {
                Some(t) => text is Some && text->Some_0@ == t,
                None => text is None,
            },
    {
        if self.opts.char_literals {
            match char_from_u32(cp) {
                Some(c) => {
                    proof {
                        vstd::utf8::char_u32_cast(c, cp);
                    }
                    Some(debug_char_string(c))
                },
                None => None,
            }
        } else {
            Some(decimal_string(cp as u64))
        }
    }

    /// The type of a codepoint in the source text.
    pub(crate) fn rust_codepoint_type(&self) -> (ty: &'static str)
        ensures
            ty@ == self@.opts.codepoint_type(),
    {
        if self.opts.char_literals {
            "char"
        } else {
            "u32"
        }
    }

    /// The name of a C constant for `name`.
    pub(crate) fn c_const_name(&self, name: &str) -> (id: String)
        ensures
            id@ == self@.opts.c_const_name(name@),
    {
        let name = rust_const_name(name);
        if !self.opts.table_name.as_str().is_empty() && !starts_with(
            self.opts.table_name.as_str(),
            name.as_str(),
        ) {
            let mut id = self.opts.table_name.clone();
            id.append("_");
            id.append(name.as_str());
            return id;
        }
        name
    }

    pub(crate) fn begin_c_array(&mut self, name: &str, size: usize, item_type: &str, inner: Option<usize>)
        ensures
            final(self)@.opts == old(self)@.opts,
            final(self)@ == old(self)@.begin_c_array(
                name@,
                size as nat,
                item_type@,
                match inner {
                    Some(len) => Some(len as nat),
                    None => None,
                },
            ),
    {
        let id = self.c_const_name(name);
        let mut define = String::from_str("#define ");
        define.append(id.as_str());
        define.append("_SIZE ");
        define.append(decimal_string(size as u64).as_str());
        define.append("\n\n");
        self.raw(define.as_str());
        let mut declare = String::from_str("UCD_GENERATE_DATA_LINKAGE const ");
        declare.append(item_type);
        declare.append(" ");
        declare.append(id.as_str());
        declare.append("[");
        declare.append(id.as_str());
        match inner {
            Some(len) => {
                declare.append("_SIZE + 1][");
                declare.append(decimal_string(len as u64).as_str());
                declare.append("] = {\n");
            },
            None => {
                declare.append("_SIZE + 1] = {\n");
            },
        }
        self.raw(declare.as_str());
        if size == 0 {
            self.put("0");
        }
    }

    pub(crate) fn end_c_array(&mut self)
        ensures
            final(self)@.opts == old(self)@.opts,
            final(self)@ == old(self)@.end_c_array(),
    {
        self.raw("};\n");
    }

    /// The error for `emitting`, which cannot be written as C, if C is
    /// written.
    pub(crate) fn ensure_not_c(&self, emitting: &str) -> (r: Result<(), Error>)
        ensures
            match self@.opts.not_c(emitting@) {
                Some(msg) => r is Err && r->Err_0@ == msg,
                None => r is Ok,
            },
    {
        if self.opts.emit_c {
            let mut msg = String::from_str("cannot emit a ");
            msg.append(emitting);
            msg.append(" as C code");
            Err(Error::Other(msg))
        } else {
            Ok(())
        }
    }
}

/// Whether `text` begins with `start`.
pub fn starts_with(text: &str, start: &str) -> (yes: bool)
    ensures
        yes == start@.is_prefix_of(text@),
{
    let n = start.unicode_len();
    if n > text.unicode_len() {
        return false;
    }
    let mut i: usize = 0;
    while i < n
        invariant
            i <= n,
            n == start@.len(),
            n <= text@.len(),
            forall|k: int| 0 <= k < i ==> start@[k] == text@[k],
        decreases n - i,
    {
        if start.get_char(i) != text.get_char(i) {
            assert(start@ != text@.subrange(0, start@.len() as int)) by {
                if start@ == text@.subrange(0, start@.len() as int) {
                    assert(text@.subrange(0, start@.len() as int)[i as int] == text@[i as int]);
                }
            }
            return false;
        }
        i += 1;
    }
    assert(start@ =~= text@.subrange(0, start@.len() as int));
    true
}

/// `sorted` holds the texts of `names`, each as often, in the order of
/// strings.
pub open spec fn is_sorted_names(names: Seq<Seq<char>>, sorted: Seq<Seq<char>>) -> bool {
    &&& sorted.to_multiset() == names.to_multiset()
    &&& forall|i: int, j: int| 0 <= i <= j < sorted.len() ==> text_le(sorted[i], sorted[j])
}

/// Whether the codepoints of the entries increase, as the keys of an
/// ordered map do.
pub open spec fn keys_increase(map: Seq<(u32, Vec<u32>)>) -> bool {
    forall|i: int, j: int| 0 <= i < j < map.len() ==> map[i].0 < map[j].0
}

/// The entries of the pairs of a map from texts to texts.
pub open spec fn pair_entries(map: Seq<(String, String)>) -> Seq<Seq<char>> {
    map.map_values(|p: (String, String)| pair_entry(p.0@, p.1@))
}

/// The numerals of `values`, each followed by `", "` except the last.
pub open spec fn joined_decimals(values: Seq<u32>) -> Seq<char>
    decreases values.len(),
{
    if values.len() == 0 {
        Seq::empty()
    } else if values.len() == 1 {
        decimal(values[0] as nat)
    } else {
        joined_decimals(values.drop_last()) + ", "@ + decimal(values.last() as nat)
    }
}

/// The entry of a codepoint and its values in a C table.
pub open spec fn c_values_entry(key: u32, values: Seq<u32>) -> Seq<char> {
    "{"@ + decimal(key as nat) + ", "@ + decimal(values.len()) + ", "@ + joined_decimals(values)
        + "}, "@
}

/// The largest length among the values of the first `upto` entries, and
/// at least `least`.
pub open spec fn longest_values(map: Seq<(u32, Vec<u32>)>, upto: int, least: nat) -> nat
    decreases upto,
{
    if upto <= 0 {
        least
    } else {
        let before = longest_values(map, upto - 1, least);
        if map[upto - 1].1@.len() > before {
            map[upto - 1].1@.len()
        } else {
            before
        }
    }
}

impl OptionsModel {
    /// Whether every codepoint of `values` can be written.
    pub open spec fn all_written(self, values: Seq<u32>) -> bool {
        forall|i: int| 0 <= i < values.len() ==> self.codepoint(#[trigger] values[i]) is Some
    }

    /// The texts of the codepoints of `values`, each followed by `", "`.
    pub open spec fn listed(self, values: Seq<u32>) -> Seq<Seq<char>> {
        values.map_values(|v: u32| self.codepoint(v).unwrap() + ", "@)
    }
}

impl WriterModel {
    /// The writer with the list of the names `sorted`.
    #[verifier::opaque]
    pub open spec fn names(self, sorted: Seq<Seq<char>>) -> WriterModel {
        let m = self.header().separator();
        if m.opts.emit_c {
            m.c_names(sorted)
        } else {
            let ct = m.opts.codepoint_type();
            let ty = if m.opts.fst_dir is Some {
                "::fst::Set"@
            } else if m.opts.trie_set {
                "&'static ::ucd_trie::TrieSet"@
            } else {
                "&'static [("@ + ct + ", "@ + ct + ")]"@
            };
            m.raw("pub const BY_NAME: &'static [(&'static str, "@ + ty + ")] = &[\n"@).put_all(
                sorted.map_values(|n: Seq<char>| name_entry(n)),
            ).raw("];\n"@)
        }
    }

    /// The writer with the C list of the names `sorted`.
    pub open spec fn c_names(self, sorted: Seq<Seq<char>>) -> WriterModel {
        let ty = self.opts.c_const_name("name_entry"@).map_values(|c: char| ascii_lower(c));
        self.raw(
            "struct "@ + ty
                + " {\n  char const *name;\n  unsigned int table_size;\n  const unsigned int (*table)[2];\n};\n\n"@,
        ).begin_c_array("BY_NAME"@, sorted.len(), "struct "@ + ty, None).put_all(
            sorted.map_values(|n: Seq<char>| c_name_entry(self.opts, n)),
        ).end_c_array()
    }

    /// The writer with the table `name` of pairs of texts.
    pub open spec fn string_to_string(self, name: Seq<char>, map: Seq<(String, String)>) -> WriterModel {
        self.header().separator().raw(
            "pub const "@ + const_name(name)
                + ": &'static [(&'static str, &'static str)] = &[\n"@,
        ).put_all(pair_entries(map)).raw("];\n"@).flushed()
    }

    /// The writer with the first `upto` groups of a table of tables of
    /// pairs of texts.
    pub open spec fn groups(self, map: Seq<(String, Vec<(String, String)>)>, upto: int) -> WriterModel
        decreases upto,
    {
        if upto <= 0 {
            self
        } else {
            let before = self.groups(map, upto - 1);
            let opened = if upto == 1 {
                before
            } else {
                before.raw("\n"@)
            };
            opened.put("("@ + debug_str(map[upto - 1].0@) + ", &["@).put_all(
                pair_entries(map[upto - 1].1@),
            ).put("]), "@)
        }
    }

    /// The writer with the table `name` of tables of pairs of texts.
    pub open spec fn string_to_string_to_string(
        self,
        name: Seq<char>,
        map: Seq<(String, Vec<(String, String)>)>,
    ) -> WriterModel {
        self.header().separator().raw(
            "pub const "@ + const_name(name)
                + ": &'static [(&'static str, &'static [(&'static str, &'static str)])] = &[\n"@,
        ).groups(map, map.len() as int).raw("];\n"@).flushed()
    }

    /// The writer with the entry of `key` and `values`, if all of them can
    /// be written.
    pub open spec fn values_entry(self, key: u32, values: Seq<u32>) -> WriterModel {
        if self.opts.codepoint(key) is Some && self.opts.all_written(values) {
            let opened = self.put("("@ + self.opts.codepoint(key).unwrap() + ", &["@);
            let filled = if values.len() == 1 {
                opened.put(self.opts.codepoint(values[0]).unwrap())
            } else {
                opened.put_all(self.opts.listed(values))
            };
            filled.put("]), "@)
        } else {
            self
        }
    }

    /// The writer with the first `upto` entries of a table from codepoints
    /// to lists of codepoints.
    pub open spec fn values_entries(self, map: Seq<(u32, Vec<u32>)>, upto: int) -> WriterModel
        decreases upto,
    {
        if upto <= 0 {
            self
        } else {
            self.values_entries(map, upto - 1).values_entry(map[upto - 1].0, map[upto - 1].1@)
        }
    }

    /// The writer with the first `upto` entries of a C table from
    /// codepoints to lists of codepoints.
    pub open spec fn c_values_entries(self, map: Seq<(u32, Vec<u32>)>, upto: int) -> WriterModel
        decreases upto,
    {
        if upto <= 0 {
            self
        } else {
            self.c_values_entries(map, upto - 1).put(
                c_values_entry(map[upto - 1].0, map[upto - 1].1@),
            )
        }
    }

    /// The writer with the C table `name` from codepoints to lists of
    /// codepoints.
    pub open spec fn c_values_table(self, name: Seq<char>, map: Seq<(u32, Vec<u32>)>) -> WriterModel {
        let ty = self.opts.c_const_name("entry"@).map_values(|c: char| ascii_lower(c));
        self.raw(
            "struct "@ + ty
                + " {\n  unsigned int key;\n  unsigned int num_vals;\n  unsigned int vals["@
                + decimal(longest_values(map, map.len() as int, 1)) + "];\n};\n\n"@,
        ).begin_c_array(name, map.len(), "struct "@ + ty, None).c_values_entries(
            map,
            map.len() as int,
        ).end_c_array()
    }

    /// The writer with the table `name` from codepoints to lists of
    /// codepoints.
    pub open spec fn codepoint_to_codepoints(self, name: Seq<char>, map: Seq<(u32, Vec<u32>)>) -> WriterModel {
        let m = self.header().separator();
        if m.opts.emit_c {
            m.c_values_table(name, map)
        } else {
            let ct = m.opts.codepoint_type();
            m.raw(
                "pub const "@ + const_name(name) + ": &'static [("@ + ct + ", &'static ["@ + ct
                    + "])] = &[\n"@,
            ).values_entries(map, map.len() as int).raw("];\n"@).flushed()
        }
    }
}

/// A list of strings with one more string holds one more text.
pub proof fn lemma_texts_push(v: Seq<String>, s: String, want: Seq<Seq<char>>, i: int)
    requires
        texts(v) == want.take(i),
        0 <= i < want.len(),
        s@ == want[i],
    ensures
        texts(v.push(s)) == want.take(i + 1),
{
    assert(texts(v).len() == v.len());
    assert(want.take(i).len() == i);
    let now = texts(v.push(s));
    let goal = want.take(i + 1);
    assert(now.len() == goal.len());
    assert forall|k: int| 0 <= k < now.len() implies now[k] == goal[k] by {
        if k < i {
            assert(texts(v)[k] == want.take(i)[k]);
        }
    }
    assert(now =~= goal);
}

impl Writer {
    /// Puts each text of `parts` on the line.
    pub(crate) fn put_all(&mut self, parts: &Vec<String>)
        ensures
            final(self)@.opts == old(self)@.opts,
            final(self)@ == old(self)@.put_all(texts(parts@)),
    {
        let mut i: usize = 0;
        assert(texts(parts@).take(0) =~= Seq::<Seq<char>>::empty());
        while i < parts.len()
            invariant
                i <= parts@.len(),
                self@ == old(self)@.put_all(texts(parts@).take(i as int)),
            decreases parts@.len() - i,
        {
            proof {
                let next = texts(parts@).take(i + 1);
                assert(next.drop_last() =~= texts(parts@).take(i as int));
                assert(next.last() == parts@[i as int]@);
            }
            self.put(parts[i].as_str());
            i += 1;
        }
        assert(texts(parts@).take(i as int) =~= texts(parts@));
    }

    /// Writes the list of the names of the tables, in the order of
    /// strings.
    pub fn names(&mut self, names: &Vec<String>) -> (r: Result<(), Error>)
        ensures
            r is Ok,
            final(self)@.opts == old(self)@.opts,
            exists|sorted: Seq<Seq<char>>| #[trigger]
                is_sorted_names(texts(names@), sorted) && final(self)@ == old(self)@.names(sorted),
    {
        proof {
            reveal(WriterModel::names);
        }
        let mut sorted: Vec<String> = Vec::new();
        let mut i: usize = 0;
        while i < names.len()
            invariant
                i <= names@.len(),
                texts(sorted@) == texts(names@).take(i as int),
            decreases names@.len() - i,
        {
            let ghost before = sorted@;
            let copy = names[i].clone();
            proof {
                lemma_texts_push(before, copy, texts(names@), i as int);
            }
            sorted.push(copy);
            i += 1;
        }
        assert(texts(names@).take(i as int) =~= texts(names@));
        sort_strings(&mut sorted);
        let ghost order = texts(sorted@);
        assert(is_sorted_names(texts(names@), order));
        self.header();
        self.separator();
        let ghost m = self@;
        if self.opts.emit_c {
            self.emit_c_name_data(&sorted);
            return Ok(());
        }
        let mut line = String::from_str("pub const BY_NAME: &'static [(&'static str, ");
        if self.opts.fst_dir.is_some() {
            line.append("::fst::Set");
        } else if self.opts.trie_set {
            line.append("&'static ::ucd_trie::TrieSet");
        } else {
            let charty = self.rust_codepoint_type();
            let mut ty = String::from_str("&'static [(");
            ty.append(charty);
            ty.append(", ");
            ty.append(charty);
            ty.append(")]");
            line.append(ty.as_str());
        }
        line.append(")] = &[\n");
        self.raw(line.as_str());
        let mut entries: Vec<String> = Vec::new();
        let mut k: usize = 0;
        while k < sorted.len()
            invariant
                k <= sorted@.len(),
                order == texts(sorted@),
                texts(entries@) == order.map_values(|n: Seq<char>| name_entry(n)).take(k as int),
            decreases sorted@.len() - k,
        {
            let mut entry = String::from_str("(");
            entry.append(debug_string(sorted[k].as_str()).as_str());
            entry.append(", ");
            entry.append(rust_const_name(sorted[k].as_str()).as_str());
            entry.append("), ");
            proof {
                lemma_texts_push(
                    entries@,
                    entry,
                    order.map_values(|n: Seq<char>| name_entry(n)),
                    k as int,
                );
            }
            entries.push(entry);
            k += 1;
        }
        assert(order.map_values(|n: Seq<char>| name_entry(n)).take(k as int) =~= order.map_values(
            |n: Seq<char>| name_entry(n),
        ));
        self.put_all(&entries);
        self.raw("];\n");
        Ok(())
    }

    fn emit_c_name_data(&mut self, names: &Vec<String>)
        ensures
            final(self)@.opts == old(self)@.opts,
            final(self)@ == old(self)@.c_names(texts(names@)),
    {
        let ghost opts = self@.opts;
        let ghost order = texts(names@);
        let struct_ty_name = to_ascii_lowercase(self.c_const_name("name_entry").as_str());
        let mut head = String::from_str("struct ");
        head.append(struct_ty_name.as_str());
        head.append(
            " {\n  char const *name;\n  unsigned int table_size;\n  const unsigned int (*table)[2];\n};\n\n",
        );
        self.raw(head.as_str());
        let mut item = String::from_str("struct ");
        item.append(struct_ty_name.as_str());
        self.begin_c_array("BY_NAME", names.len(), item.as_str(), None);
        let mut entries: Vec<String> = Vec::new();
        let mut k: usize = 0;
        while k < names.len()
            invariant
                k <= names@.len(),
                order == texts(names@),
                self@.opts == opts,
                texts(entries@) == order.map_values(|n: Seq<char>| c_name_entry(opts, n)).take(
                    k as int,
                ),
            decreases names@.len() - k,
        {
            let tabname = self.c_const_name(names[k].as_str());
            let mut entry = String::from_str("{");
            entry.append(debug_string(names[k].as_str()).as_str());
            entry.append(", ");
            entry.append(tabname.as_str());
            entry.append("_SIZE, ");
            entry.append(tabname.as_str());
            entry.append("}, ");
            proof {
                lemma_texts_push(
                    entries@,
                    entry,
                    order.map_values(|n: Seq<char>| c_name_entry(opts, n)),
                    k as int,
                );
            }
            entries.push(entry);
            k += 1;
        }
        assert(order.map_values(|n: Seq<char>| c_name_entry(opts, n)).take(k as int)
            =~= order.map_values(|n: Seq<char>| c_name_entry(opts, n)));
        self.put_all(&entries);
        self.end_c_array();
    }

    /// The entries of `map`, as texts.
    fn pair_texts(map: &Vec<(String, String)>) -> (entries: Vec<String>)
        ensures
            texts(entries@) == pair_entries(map@),
    {
        let mut entries: Vec<String> = Vec::new();
        let mut k: usize = 0;
        while k < map.len()
            invariant
                k <= map@.len(),
                texts(entries@) == pair_entries(map@).take(k as int),
            decreases map@.len() - k,
        {
            let mut entry = String::from_str("(");
            entry.append(debug_string(map[k].0.as_str()).as_str());
            entry.append(", ");
            entry.append(debug_string(map[k].1.as_str()).as_str());
            entry.append("), ");
            proof {
                lemma_texts_push(entries@, entry, pair_entries(map@), k as int);
            }
            entries.push(entry);
            k += 1;
        }
        assert(pair_entries(map@).take(k as int) =~= pair_entries(map@));
        entries
    }

    /// Writes a table from texts to texts, in the order of `map`, whose
    /// keys stand in the order of strings. Fails if FSTs or C are asked
    /// for.
    pub fn string_to_string(&mut self, name: &str, map: &Vec<(String, String)>) -> (r: Result<
        (),
        Error,
    >)
        requires
            texts_increase(map@.map_values(|e: (String, String)| e.0@)),
        ensures
            r is Err <==> old(self)@.opts.fst_dir is Some || old(self)@.opts.emit_c,
            r is Err ==> final(self)@ == old(self)@ && r->Err_0@ == if old(self)@.opts.fst_dir
                is Some {
                "cannot emit string->string map as an FST"@
            } else {
                "cannot emit a string->string map as C code"@
            },
            r is Ok ==> final(self)@ == old(self)@.string_to_string(name@, map@),
    {
        if self.opts.fst_dir.is_some() {
            return Err(Error::other("cannot emit string->string map as an FST"));
        }
        match self.ensure_not_c("string->string map") {
            Err(e) => {
                proof {
                    reveal_strlit("cannot emit a ");
                    reveal_strlit("string->string map");
                    reveal_strlit(" as C code");
                    reveal_strlit("cannot emit a string->string map as C code");
                    assert(e@ =~= "cannot emit a string->string map as C code"@);
                }
                return Err(e);
            },
            Ok(()) => {},
        }
        self.header();
        self.separator();
        let mut line = String::from_str("pub const ");
        line.append(rust_const_name(name).as_str());
        line.append(": &'static [(&'static str, &'static str)] = &[\n");
        self.raw(line.as_str());
        let entries = Writer::pair_texts(map);
        self.put_all(&entries);
        self.raw("];\n");
        self.wtr.flush();
        Ok(())
    }

    /// Writes a table from texts to tables from texts to texts, in the
    /// order of `map`. The keys of `map` and those of each of its tables
    /// stand in the order of strings. Fails if FSTs or C are asked for.
    pub fn string_to_string_to_string(
        &mut self,
        name: &str,
        map: &Vec<(String, Vec<(String, String)>)>,
    ) -> (r: Result<(), Error>)
        requires
            texts_increase(map@.map_values(|e: (String, Vec<(String, String)>)| e.0@)),
            forall|i: int|
                0 <= i < map@.len() ==> texts_increase(
                    (#[trigger] map@[i]).1@.map_values(|e: (String, String)| e.0@),
                ),
        ensures
            r is Err <==> old(self)@.opts.fst_dir is Some || old(self)@.opts.emit_c,
            r is Err ==> final(self)@ == old(self)@ && r->Err_0@ == if old(self)@.opts.fst_dir
                is Some {
                "cannot emit string->string map as an FST"@
            } else {
                "cannot emit a string->string map as C code"@
            },
            r is Ok ==> final(self)@ == old(self)@.string_to_string_to_string(name@, map@),
    {
        if self.opts.fst_dir.is_some() {
            return Err(Error::other("cannot emit string->string map as an FST"));
        }
        match self.ensure_not_c("string->string map") {
            Err(e) => {
                proof {
                    reveal_strlit("cannot emit a ");
                    reveal_strlit("string->string map");
                    reveal_strlit(" as C code");
                    reveal_strlit("cannot emit a string->string map as C code");
                    assert(e@ =~= "cannot emit a string->string map as C code"@);
                }
                return Err(e);
            },
            Ok(()) => {},
        }
        self.header();
        self.separator();
        let mut line = String::from_str("pub const ");
        line.append(rust_const_name(name).as_str());
        line.append(
            ": &'static [(&'static str, &'static [(&'static str, &'static str)])] = &[\n",
        );
        self.raw(line.as_str());
        let ghost start = self@;
        let mut first = true;
        let mut i: usize = 0;
        while i < map.len()
            invariant
                i <= map@.len(),
                first == (i == 0),
                self@ == start.groups(map@, i as int),
            decreases map@.len() - i,
        {
            if !first {
                self.raw("\n");
            }
            first = false;
            let mut open = String::from_str("(");
            open.append(debug_string(map[i].0.as_str()).as_str());
            open.append(", &[");
            self.put(open.as_str());
            let entries = Writer::pair_texts(&map[i].1);
            self.put_all(&entries);
            self.put("]), ");
            i += 1;
        }
        self.raw("];\n");
        self.wtr.flush();
        Ok(())
    }

    /// Writes a table from codepoints to sets of codepoints, in the order
    /// of `map`, whose keys increase. Fails if FSTs are asked for.
    pub fn multi_codepoint_to_codepoint(&mut self, name: &str, map: &Vec<(u32, Vec<u32>)>) -> (r:
        Result<(), Error>)
        requires
            keys_increase(map@),
        ensures
            r is Err <==> old(self)@.opts.fst_dir is Some,
            r is Err ==> final(self)@ == old(self)@ && r->Err_0@
                == "cannot emit codepoint multimaps as an FST"@,
            r is Ok ==> final(self)@ == old(self)@.codepoint_to_codepoints(name@, map@),
    {
        if self.opts.fst_dir.is_some() {
            return Err(Error::other("cannot emit codepoint multimaps as an FST"));
        }
        self.codepoint_to_codepoints(name, map)
    }

    /// Writes a table from codepoints to lists of codepoints, in the order
    /// of `map`, whose keys increase. An entry with a codepoint that cannot
    /// be written is left out. Fails if FSTs are asked for.
    pub fn codepoint_to_codepoints(&mut self, name: &str, map: &Vec<(u32, Vec<u32>)>) -> (r: Result<
        (),
        Error,
    >)
        requires
            keys_increase(map@),
        ensures
            r is Err <==> old(self)@.opts.fst_dir is Some,
            r is Err ==> final(self)@ == old(self)@ && r->Err_0@
                == "cannot emit codepoint->codepoints map as an FST"@,
            r is Ok ==> final(self)@ == old(self)@.codepoint_to_codepoints(name@, map@),
            final(self)@.opts == old(self)@.opts,
    {
        if self.opts.fst_dir.is_some() {
            return Err(Error::other("cannot emit codepoint->codepoints map as an FST"));
        }
        self.header();
        self.separator();
        if self.opts.emit_c {
            self.c_codepoint_to_codepoints(name, map);
            return Ok(());
        }
        let ty = self.rust_codepoint_type();
        let mut line = String::from_str("pub const ");
        line.append(rust_const_name(name).as_str());
        line.append(": &'static [(");
        line.append(ty);
        line.append(", &'static [");
        line.append(ty);
        line.append("])] = &[\n");
        self.raw(line.as_str());
        let ghost start = self@;
        let mut i: usize = 0;
        while i < map.len()
            invariant
                i <= map@.len(),
                self@ == start.values_entries(map@, i as int),
                self@.opts == old(self)@.opts,
            decreases map@.len() - i,
        {
            self.values_entry(map[i].0, &map[i].1);
            i += 1;
        }
        self.raw("];\n");
        self.wtr.flush();
        Ok(())
    }

    /// Writes the entry of `key` and `values`, unless one of the
    /// codepoints cannot be written.
    fn values_entry(&mut self, key: u32, values: &Vec<u32>)
        ensures
            final(self)@ == old(self)@.values_entry(key, values@),
            final(self)@.opts == old(self)@.opts,
    {
        let ghost opts = self@.opts;
        let kstr = match self.rust_codepoint(key) {
            None => {
                return ;
            },
            Some(k) => k,
        };
        let mut vstrs: Vec<String> = Vec::new();
        let mut listed: Vec<String> = Vec::new();
        let mut j: usize = 0;
        while j < values.len()
            invariant
                j <= values@.len(),
                self@ == old(self)@,
                opts == old(self)@.opts,
                vstrs@.len() == j,
                forall|k: int| 0 <= k < j ==> opts.codepoint(#[trigger] values@[k]) is Some,
                forall|k: int|
                    0 <= k < j ==> (#[trigger] vstrs@[k])@ == opts.codepoint(values@[k]).unwrap(),
                texts(listed@) == opts.listed(values@).take(j as int),
            decreases values@.len() - j,
        {
            match self.rust_codepoint(values[j]) {
                None => {
                    return ;
                },
                Some(v) => {
                    let mut item = v.clone();
                    item.append(", ");
                    proof {
                        lemma_texts_push(listed@, item, opts.listed(values@), j as int);
                    }
                    vstrs.push(v);
                    listed.push(item);
                },
            }
            j += 1;
        }
        assert(opts.listed(values@).take(j as int) =~= opts.listed(values@));
        let mut open = String::from_str("(");
        open.append(kstr.as_str());
        open.append(", &[");
        self.put(open.as_str());
        if vstrs.len() == 1 {
            self.put(vstrs[0].as_str());
        } else {
            self.put_all(&listed);
        }
        self.put("]), ");
    }

    fn c_codepoint_to_codepoints(&mut self, name: &str, map: &Vec<(u32, Vec<u32>)>)
        ensures
            final(self)@ == old(self)@.c_values_table(name@, map@),
            final(self)@.opts == old(self)@.opts,
    {
        let mut map_entry_size: usize = 1;
        let mut i: usize = 0;
        while i < map.len()
            invariant
                i <= map@.len(),
                map_entry_size as nat == longest_values(map@, i as int, 1),
            decreases map@.len() - i,
        {
            if map[i].1.len() > map_entry_size {
                map_entry_size = map[i].1.len();
            }
            i += 1;
        }
        let struct_ty_name = to_ascii_lowercase(self.c_const_name("entry").as_str());
        let mut head = String::from_str("struct ");
        head.append(struct_ty_name.as_str());
        head.append(" {\n  unsigned int key;\n  unsigned int num_vals;\n  unsigned int vals[");
        head.append(decimal_string(map_entry_size as u64).as_str());
        head.append("];\n};\n\n");
        self.raw(head.as_str());
        let mut item = String::from_str("struct ");
        item.append(struct_ty_name.as_str());
        self.begin_c_array(name, map.len(), item.as_str(), None);
        let ghost start = self@;
        let mut i: usize = 0;
        while i < map.len()
            invariant
                i <= map@.len(),
                self@ == start.c_values_entries(map@, i as int),
                self@.opts == old(self)@.opts,
            decreases map@.len() - i,
        {
            let k = map[i].0;
            let vs = &map[i].1;
            let mut entry = String::from_str("{");
            entry.append(decimal_string(k as u64).as_str());
            entry.append(", ");
            entry.append(decimal_string(vs.len() as u64).as_str());
            entry.append(", ");
            entry.append(Writer::join_decimals(vs).as_str());
            entry.append("}, ");
            self.put(entry.as_str());
            i += 1;
        }
        self.end_c_array();
    }

    /// The numerals of `values` with `", "` between them.
    fn join_decimals(values: &Vec<u32>) -> (joined: String)
        ensures
            joined@ == joined_decimals(values@),
    {
        let mut joined = String::new();
        let mut j: usize = 0;
        assert(values@.take(0) =~= Seq::<u32>::empty());
        while j < values.len()
            invariant
                j <= values@.len(),
                joined@ == joined_decimals(values@.take(j as int)),
            decreases values@.len() - j,
        {
            proof {
                let next = values@.take(j + 1);
                assert(next.drop_last() =~= values@.take(j as int));
                assert(next.last() == values@[j as int]);
                if j == 0 {
                    assert(next[0] == values@[0]);
                }
            }
            if j > 0 {
                joined.append(", ");
            }
            joined.append(decimal_string(values[j] as u64).as_str());
            j += 1;
            assert(joined@ =~= joined_decimals(values@.take(j as int)));
        }
        assert(values@.take(j as int) =~= values@);
        joined
    }
}

} // verus!
