//! The tables of the scripts of the codepoints, and of the scripts that
//! they are used in.

use vstd::prelude::*;
use vstd::string::*;
use crate::error::Error;
use crate::property::{
    assigned,
    distinct_names,
    group_in_order,
    has_group,
    has_row,
    in_rows,
    is_ordered_grouping,
    mark_assigned,
    tables_written,
    write_tables,
    Filter,
};
use crate::text::text_le;
use crate::ucd_parse::common::MAX_CODEPOINT;
use crate::writer::Writer;

verus! {

/// Writes the tables of the scripts: as a map to the variants of the
/// enumeration `name` if `as_enum` is set, which fails if C is written;
/// else the list of the scripts that pass the filter and then the set of
/// the codepoints of each of these scripts, in the order of the scripts.
/// A row gives the codepoints from its first to its second number its
/// script.
pub fn command_script(
    rows: &Vec<(u32, u32, String)>,
    filter: &Filter,
    as_enum: bool,
    name: &str,
    wtr: &mut Writer,
) -> (r: Result<(), Error>)
    ensures
        r is Ok ==> exists|groups: Seq<(String, Vec<u32>)>| #[trigger]
            is_ordered_grouping(rows@, groups) && tables_written(
                old(wtr)@,
                final(wtr)@,
                name@,
                groups,
                *filter,
                as_enum,
            ),
        old(wtr)@.opts.fst_dir is None && !old(wtr)@.opts.trie_set && !(as_enum && old(
            wtr,
        )@.opts.emit_c) ==> r is Ok,
        as_enum && old(wtr)@.opts.emit_c ==> r is Err,
{
    let groups = group_in_order(rows);
    let r = write_tables(wtr, name, &groups, filter, as_enum);
    proof {
        if r is Ok {
            assert(is_ordered_grouping(rows@, groups@));
        }
    }
    r
}

/// Whether a row gives `cp` a value: by the marks for a codepoint, and by
/// the rows for a number beyond the last codepoint.
fn is_assigned(rows: &Vec<(u32, u32, String)>, marks: &Vec<bool>, cp: u32) -> (yes: bool)
    requires
        marks@.len() == MAX_CODEPOINT + 1,
        forall|x: u32| x <= MAX_CODEPOINT ==> (#[trigger] marks@[x as int] <==> assigned(rows@, x)),
    ensures
        yes == assigned(rows@, cp),
{
    if cp <= MAX_CODEPOINT {
        return marks[cp as usize];
    }
    let mut i: usize = 0;
    while i < rows.len()
        invariant
            i <= rows@.len(),
            forall|k: int| 0 <= k < i ==> !((#[trigger] rows@[k]).0 <= cp <= rows@[k].1),
        decreases rows@.len() - i,
    {
        if rows[i].0 <= cp && cp <= rows[i].1 {
            return true;
        }
        i += 1;
    }
    false
}

/// The rows with one more row give what they gave, and what the row
/// gives.
pub proof fn lemma_rows_push(rows: Seq<(u32, u32, String)>, row: (u32, u32, String))
    ensures
        forall|n: Seq<char>, x: u32|
            #![trigger in_rows(rows.push(row), n, x)]
            in_rows(rows.push(row), n, x) <==> in_rows(rows, n, x) || (row.2@ == n && row.0 <= x
                <= row.1),
        forall|n: Seq<char>|
            #![trigger has_row(rows.push(row), n)]
            has_row(rows.push(row), n) <==> has_row(rows, n) || row.2@ == n,
{
    let more = rows.push(row);
    let last = rows.len() as int;
    assert forall|n: Seq<char>, x: u32| #[trigger]
        in_rows(more, n, x) <==> in_rows(rows, n, x) || (row.2@ == n && row.0 <= x
            <= row.1) by {
        if in_rows(more, n, x) {
            let i = choose|i: int|
                0 <= i < more.len() && (#[trigger] more[i]).2@ == n && more[i].0 <= x <= more[i].1;
            if i < last {
                assert(rows[i] == more[i]);
            }
        }
        if in_rows(rows, n, x) {
            let i = choose|i: int|
                0 <= i < rows.len() && (#[trigger] rows[i]).2@ == n && rows[i].0 <= x <= rows[i].1;
            assert(more[i] == rows[i]);
        }
        if row.2@ == n && row.0 <= x <= row.1 {
            assert(more[last] == row);
        }
    }
    assert forall|n: Seq<char>| #[trigger]
        has_row(more, n) <==> has_row(rows, n) || row.2@ == n by {
        if has_row(more, n) {
            let i = choose|i: int| 0 <= i < more.len() && (#[trigger] more[i]).2@ == n;
            if i < last {
                assert(rows[i] == more[i]);
            }
        }
        if has_row(rows, n) {
            let i = choose|i: int| 0 <= i < rows.len() && (#[trigger] rows[i]).2@ == n;
            assert(more[i] == rows[i]);
        }
        if row.2@ == n {
            assert(more[last] == row);
        }
    }
}

/// Whether the rows, or a range that begins with `run` and ends before
/// `upto`, give the codepoint `x` the value `n`.
pub open spec fn gives(
    rows: Seq<(u32, u32, String)>,
    run: Option<u32>,
    upto: int,
    name: Seq<char>,
    n: Seq<char>,
    x: u32,
) -> bool {
    in_rows(rows, n, x) || (run is Some && n == name && run->Some_0 <= x < upto)
}

/// Whether the rows give the codepoint `x` the value `n`, or `n` is
/// `name` and `x` is a codepoint from `first` up to `upto` to which no row
/// of `seen` gives a value.
pub open spec fn owed(
    rows: Seq<(u32, u32, String)>,
    first: u32,
    upto: int,
    name: Seq<char>,
    seen: Seq<(u32, u32, String)>,
    n: Seq<char>,
    x: u32,
) -> bool {
    in_rows(rows, n, x) || (n == name && first <= x < upto && !assigned(seen, x))
}

/// Adds rows to `out` that give the value `name` to the codepoints from
/// `first` to `last` to which no row of `seen` gives a value. The value
/// gets a row even where there is no such codepoint.
fn add_unseen(
    out: &mut Vec<(u32, u32, String)>,
    first: u32,
    last: u32,
    name: &String,
    seen: &Vec<(u32, u32, String)>,
    marks: &Vec<bool>,
)
    requires
        marks@.len() == MAX_CODEPOINT + 1,
        forall|x: u32| x <= MAX_CODEPOINT ==> (#[trigger] marks@[x as int] <==> assigned(seen@, x)),
    ensures
        forall|n: Seq<char>, x: u32|
            #![trigger in_rows(final(out)@, n, x)]
            in_rows(final(out)@, n, x) <==> owed(old(out)@, first, last + 1, name@, seen@, n, x),
        forall|n: Seq<char>|
            #![trigger has_row(final(out)@, n)]
            has_row(final(out)@, n) <==> has_row(old(out)@, n) || n == name@,
{
    let marker = (1u32, 0u32, name.clone());
    proof {
        lemma_rows_push(out@, marker);
    }
    out.push(marker);
    let ghost begun = out@;
    assert(begun == old(out)@.push(marker));
    assert(has_row(begun, name@));
    assert forall|n: Seq<char>, x: u32| in_rows(begun, n, x) <==> in_rows(old(out)@, n, x) by {}
    if first > last {
        return ;
    }
    let mut cp: u64 = first as u64;
    let mut run: Option<u32> = None;
    while cp <= last as u64
        invariant
            first <= cp <= last + 1,
            marks@.len() == MAX_CODEPOINT + 1,
            forall|x: u32|
                x <= MAX_CODEPOINT ==> (#[trigger] marks@[x as int] <==> assigned(seen@, x)),
            run is Some ==> first <= run->Some_0 < cp,
            has_row(begun, name@),
            forall|n: Seq<char>, x: u32| #[trigger]
                gives(out@, run, cp as int, name@, n, x) <==> owed(
                    begun,
                    first,
                    cp as int,
                    name@,
                    seen@,
                    n,
                    x,
                ),
            forall|n: Seq<char>| #![trigger has_row(out@, n)] has_row(out@, n) <==> has_row(begun, n),
        decreases last + 1 - cp,
    {
        let ghost before = out@;
        let ghost was = run;
        let at = cp as u32;
        if is_assigned(seen, marks, at) {
            match run {
                Some(start) => {
                    let row = (start, (at - 1) as u32, name.clone());
                    proof {
                        lemma_rows_push(out@, row);
                    }
                    out.push(row);
                    run = None;
                },
                None => {},
            }
        } else {
            if run.is_none() {
                run = Some(at);
            }
        }
        cp += 1;
        proof {
            assert forall|n: Seq<char>, x: u32| #[trigger]
                gives(out@, run, cp as int, name@, n, x) <==> owed(
                    begun,
                    first,
                    cp as int,
                    name@,
                    seen@,
                    n,
                    x,
                ) by {
                assert(gives(before, was, at as int, name@, n, x) <==> owed(
                    begun,
                    first,
                    at as int,
                    name@,
                    seen@,
                    n,
                    x,
                ));
            }
            assert forall|n: Seq<char>| #![trigger has_row(out@, n)] has_row(out@, n) <==> has_row(
                begun,
                n,
            ) by {
                assert(has_row(before, n) <==> has_row(begun, n));
            }
        }
    }
    let ghost before = out@;
    let ghost was = run;
    match run {
        Some(start) => {
            let row = (start, last, name.clone());
            proof {
                lemma_rows_push(out@, row);
            }
            out.push(row);
        },
        None => {},
    }
    proof {
        assert forall|n: Seq<char>, x: u32|
            #![trigger in_rows(out@, n, x)]
            in_rows(out@, n, x) <==> owed(old(out)@, first, last + 1, name@, seen@, n, x) by {
            assert(gives(before, was, last + 1, name@, n, x) <==> owed(
                begun,
                first,
                last + 1,
                name@,
                seen@,
                n,
                x,
            ));
        }
        assert forall|n: Seq<char>|
            #![trigger has_row(out@, n)]
            has_row(out@, n) <==> has_row(old(out)@, n) || n == name@ by {
            assert(has_row(before, n) <==> has_row(begun, n));
        }
    }
}

/// Whether `groups` holds one group for each script of `extensions` and
/// of `scripts`, in the order of the scripts: the codepoints that a row
/// of `extensions` gives the script, and those that a row of `scripts`
/// gives it and to which no row of `extensions` gives a script.
pub open spec fn is_extension_grouping(
    extensions: Seq<(u32, u32, String)>,
    scripts: Seq<(u32, u32, String)>,
    groups: Seq<(String, Vec<u32>)>,
) -> bool {
    &&& distinct_names(groups)
    &&& forall|i: int, j: int|
        0 <= i <= j < groups.len() ==> text_le((#[trigger] groups[i]).0@, (#[trigger] groups[j]).0@)
    &&& forall|g: int, cp: u32|
        0 <= g < groups.len() ==> (#[trigger] groups[g].1@.contains(cp) <==> in_rows(
            extensions,
            groups[g].0@,
            cp,
        ) || (in_rows(scripts, groups[g].0@, cp) && !assigned(extensions, cp)))
    &&& forall|i: int| 0 <= i < extensions.len() ==> has_group(groups, (#[trigger] extensions[i]).2@)
    &&& forall|i: int| 0 <= i < scripts.len() ==> has_group(groups, (#[trigger] scripts[i]).2@)
    &&& forall|g: int|
        0 <= g < groups.len() ==> has_row(extensions, (#[trigger] groups[g]).0@) || has_row(
            scripts,
            groups[g].0@,
        )
}

/// The codepoints of each script that the codepoints are used in, in the
/// order of the scripts. A row of `extensions` gives the codepoints from
/// its first to its second number one of their scripts. A codepoint
/// without such a row is used in its own script alone, which a row of
/// `scripts` gives it.
pub fn script_extensions(
    extensions: &Vec<(u32, u32, String)>,
    scripts: &Vec<(u32, u32, String)>,
) -> (groups: Vec<(String, Vec<u32>)>)
    ensures
        is_extension_grouping(extensions@, scripts@, groups@),
{
    let marks = mark_assigned(extensions);
    let mut all: Vec<(u32, u32, String)> = Vec::new();
    let mut i: usize = 0;
    while i < extensions.len()
        invariant
            i <= extensions@.len(),
            forall|n: Seq<char>, x: u32|
                #![trigger in_rows(all@, n, x)]
                in_rows(all@, n, x) <==> in_rows(extensions@.take(i as int), n, x),
            forall|n: Seq<char>|
                #![trigger has_row(all@, n)]
                has_row(all@, n) <==> has_row(extensions@.take(i as int), n),
        decreases extensions@.len() - i,
    {
        let row = (extensions[i].0, extensions[i].1, extensions[i].2.clone());
        proof {
            lemma_rows_push(all@, row);
            lemma_rows_push(extensions@.take(i as int), extensions@[i as int]);
            assert(extensions@.take(i + 1) =~= extensions@.take(i as int).push(extensions@[i as int]));
        }
        all.push(row);
        i += 1;
    }
    assert(extensions@.take(i as int) =~= extensions@);
    let mut j: usize = 0;
    while j < scripts.len()
        invariant
            j <= scripts@.len(),
            marks@.len() == MAX_CODEPOINT + 1,
            forall|x: u32|
                x <= MAX_CODEPOINT ==> (#[trigger] marks@[x as int] <==> assigned(extensions@, x)),
            forall|n: Seq<char>, x: u32|
                #![trigger in_rows(all@, n, x)]
                in_rows(all@, n, x) <==> in_rows(extensions@, n, x) || (in_rows(
                    scripts@.take(j as int),
                    n,
                    x,
                ) && !assigned(extensions@, x)),
            forall|n: Seq<char>|
                #![trigger has_row(all@, n)]
                has_row(all@, n) <==> has_row(extensions@, n) || has_row(scripts@.take(j as int), n),
        decreases scripts@.len() - j,
    {
        proof {
            lemma_rows_push(scripts@.take(j as int), scripts@[j as int]);
            assert(scripts@.take(j + 1) =~= scripts@.take(j as int).push(scripts@[j as int]));
        }
        add_unseen(&mut all, scripts[j].0, scripts[j].1, &scripts[j].2, extensions, &marks);
        j += 1;
    }
    assert(scripts@.take(j as int) =~= scripts@);
    let groups = group_in_order(&all);
    proof {
        assert forall|i: int| 0 <= i < extensions@.len() implies has_group(
            groups@,
            (#[trigger] extensions@[i]).2@,
        ) by {
            assert(has_row(extensions@, extensions@[i].2@));
            assert(has_row(all@, extensions@[i].2@));
            let k = choose|k: int| 0 <= k < all@.len() && (#[trigger] all@[k]).2@ == extensions@[i].2@;
            assert(has_group(groups@, all@[k].2@));
        }
        assert forall|i: int| 0 <= i < scripts@.len() implies has_group(
            groups@,
            (#[trigger] scripts@[i]).2@,
        ) by {
            assert(has_row(scripts@, scripts@[i].2@));
            assert(has_row(all@, scripts@[i].2@));
            let k = choose|k: int| 0 <= k < all@.len() && (#[trigger] all@[k]).2@ == scripts@[i].2@;
            assert(has_group(groups@, all@[k].2@));
        }
        assert forall|g: int| 0 <= g < groups@.len() implies has_row(
            extensions@,
            (#[trigger] groups@[g]).0@,
        ) || has_row(scripts@, groups@[g].0@) by {
            assert(has_row(all@, groups@[g].0@));
        }
    }
    groups
}

/// Writes the tables of the scripts that the codepoints are used in: the
/// list of the scripts that pass the filter, and then the set of the
/// codepoints of each of these scripts, in the order of the scripts.
pub fn command_script_extension(
    extensions: &Vec<(u32, u32, String)>,
    scripts: &Vec<(u32, u32, String)>,
    filter: &Filter,
    wtr: &mut Writer,
) -> (r: Result<(), Error>)
    ensures
        r is Ok ==> exists|groups: Seq<(String, Vec<u32>)>| #[trigger]
            is_extension_grouping(extensions@, scripts@, groups) && tables_written(
                old(wtr)@,
                final(wtr)@,
                Seq::empty(),
                groups,
                *filter,
                false,
            ),
        old(wtr)@.opts.fst_dir is None && !old(wtr)@.opts.trie_set ==> r is Ok,
{
    let groups = script_extensions(extensions, scripts);
    let r = write_tables(wtr, "", &groups, filter, false);
    proof {
        if r is Ok {
            assert(is_extension_grouping(extensions@, scripts@, groups@));
        }
    }
    r
}

} // verus!
