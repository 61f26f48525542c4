use ucd_generate::bidi_class::{default_class_assignments, lookup_unassigned};
use ucd_generate::property::{
    assign_defaults, classify, group_by_value, group_in_order, has_value, mark_assigned,
    sorted_by_name, write_classes, write_tables, Filter,
};
use ucd_generate::script::{command_script, command_script_extension, script_extensions};
use ucd_generate::ucd_parse::arabic_shaping::ArabicShaping;
use ucd_generate::writer::{Writer, WriterBuilder};

const HEADER: &str = "/* DO NOT EDIT THIS FILE. IT WAS AUTOMATICALLY GENERATED BY:\n *\n *  ucd-generate test\n *\n * ucd-generate is available on crates.io.\n */\n";

const LAST: u32 = 0x10FFFF;

fn writer() -> Writer {
    let mut builder = WriterBuilder::new("test");
    builder.invocation("ucd-generate test");
    builder.from_writer(String::new())
}

fn rows(plain: &[(u32, u32, &str)]) -> Vec<(u32, u32, String)> {
    plain.iter().map(|&(a, b, name)| (a, b, name.to_string())).collect()
}

fn names(list: &[&str]) -> Vec<String> {
    list.iter().map(|name| name.to_string()).collect()
}

/// The ranges of the codepoints of a group.
fn ranges(set: &[u32]) -> Vec<(u32, u32)> {
    let mut sorted = set.to_vec();
    sorted.sort();
    sorted.dedup();
    let mut ranges: Vec<(u32, u32)> = vec![];
    for cp in sorted {
        match ranges.last_mut() {
            Some(last) if last.1 + 1 == cp => last.1 = cp,
            _ => ranges.push((cp, cp)),
        }
    }
    ranges
}

fn ranges_by_name(groups: &[(String, Vec<u32>)]) -> Vec<(String, Vec<(u32, u32)>)> {
    groups.iter().map(|(name, set)| (name.clone(), ranges(set))).collect()
}

#[test]
fn marks_hold_the_codepoints_of_the_rows() {
    let marks = mark_assigned(&rows(&[(0x41, 0x43, "A"), (0x10FFFE, 0xFFFF_FFFF, "B"), (9, 8, "C")]));
    assert_eq!(marks.len(), 0x110000);
    let held: Vec<usize> = (0..marks.len()).filter(|&cp| marks[cp]).collect();
    assert_eq!(held, vec![0x41, 0x42, 0x43, 0x10FFFE, 0x10FFFF]);
}

#[test]
fn values_of_rows() {
    let plain = rows(&[(1, 2, "A"), (3, 3, "B")]);
    assert!(has_value(&plain, "A"));
    assert!(has_value(&plain, "B"));
    assert!(!has_value(&plain, "C"));
    assert!(!has_value(&plain, ""));
    assert!(!has_value(&vec![], "A"));
}

#[test]
fn groups_are_sorted_by_their_values() {
    let groups = vec![
        ("b".to_string(), vec![2, 1]),
        ("a".to_string(), vec![7]),
        ("B".to_string(), vec![]),
        ("ab".to_string(), vec![3, 3]),
    ];
    let sorted = sorted_by_name(&groups);
    assert_eq!(
        sorted,
        vec![
            ("B".to_string(), vec![]),
            ("a".to_string(), vec![7]),
            ("ab".to_string(), vec![3, 3]),
            ("b".to_string(), vec![2, 1]),
        ]
    );
    assert_eq!(sorted_by_name(&vec![]), vec![]);
}

#[test]
fn groups_in_the_order_of_their_values() {
    let groups = group_in_order(&rows(&[(5, 6, "z"), (1, 1, "a"), (8, 8, "z"), (2, 1, "m")]));
    assert_eq!(
        ranges_by_name(&groups),
        vec![
            ("a".to_string(), vec![(1, 1)]),
            ("m".to_string(), vec![]),
            ("z".to_string(), vec![(5, 6), (8, 8)]),
        ]
    );
}

#[test]
fn codepoints_without_a_row_get_their_default_value() {
    let plain = rows(&[(0x41, 0x5A, "Upper"), (0x61, 0x7A, "Lower"), (0x30, 0x39, "Other")]);
    let defaults = [(0x100, 0x1FF, "Upper"), (0x41, 0x200, "Lower")];
    let groups = classify(&plain, &defaults, "Other");
    assert_eq!(
        ranges_by_name(&groups),
        vec![
            ("Lower".to_string(), vec![(0x5B, 0xFF), (0x200, 0x200)]),
            ("Other".to_string(), vec![(0, 0x40), (0x201, LAST)]),
            ("Upper".to_string(), vec![(0x41, 0x5A), (0x100, 0x1FF)]),
        ]
    );
    let sizes: Vec<usize> = groups.iter().map(|g| g.1.len()).collect();
    assert_eq!(sizes, vec![166, 1113664, 282]);
}

#[test]
fn defaults_are_added_to_the_groups_in_their_places() {
    let mut groups = vec![("x".to_string(), vec![7]), ("y".to_string(), vec![])];
    let marks = mark_assigned(&rows(&[(0, 9, "x"), (20, LAST, "y")]));
    assign_defaults(&mut groups, &marks, &[(12, 13, "x"), (10, 15, "y")], "x");
    assert_eq!(groups[0].0, "x");
    assert_eq!(groups[0].1, vec![7, 12, 13, 16, 17, 18, 19]);
    assert_eq!(groups[1].0, "y");
    assert_eq!(groups[1].1, vec![10, 11, 14, 15]);
}

#[test]
fn filters() {
    let all = Filter::all();
    assert!(all.contains(&"Latin".to_string()));
    assert!(all.contains(&String::new()));
    let some = Filter { included: Some(names(&["Latin", "Greek"])), excluded: None };
    assert!(some.contains(&"Greek".to_string()));
    assert!(!some.contains(&"Thai".to_string()));
    let but = Filter { included: None, excluded: Some(names(&["Greek"])) };
    assert!(but.contains(&"Thai".to_string()));
    assert!(!but.contains(&"Greek".to_string()));
    let both = Filter {
        included: Some(names(&["Latin", "Greek"])),
        excluded: Some(names(&["Greek", "Thai"])),
    };
    assert!(both.contains(&"Latin".to_string()));
    assert!(!both.contains(&"Greek".to_string()));
    assert!(!both.contains(&"Thai".to_string()));
    assert!(!both.contains(&"Lao".to_string()));
    let none = Filter { included: Some(vec![]), excluded: None };
    assert!(!none.contains(&"Latin".to_string()));
}

#[test]
fn tables_of_one_value_for_every_codepoint() {
    let plain = rows(&[(0, LAST, "Any")]);
    let mut w = writer();
    write_classes(&mut w, "t", &plain, &[], "Any", false).unwrap();
    let expected = format!(
        "{}\npub const BY_NAME: &'static [(&'static str, &'static [(u32, u32)])] = &[\n  (\"Any\", ANY),\n];\n\npub const ANY: &'static [(u32, u32)] = &[\n  (0, 1114111),\n];\n",
        HEADER
    );
    assert_eq!(w.into_inner(), expected);
    let mut w = writer();
    write_classes(&mut w, "t", &plain, &[], "Any", true).unwrap();
    let expected = format!(
        "{}\npub const T_ENUM: &'static [&'static str] = &[\n  \"Any\",\n];\n\npub const T: &'static [(u32, u32, u8)] = &[\n  (0, 1114111, 0),\n];\n",
        HEADER
    );
    assert_eq!(w.into_inner(), expected);
}

#[test]
fn tables_of_the_values_that_pass_the_filter() {
    let groups = vec![
        ("Greek".to_string(), vec![0x391]),
        ("Latin".to_string(), vec![0x42, 0x41]),
        ("Thai".to_string(), vec![0xE01]),
    ];
    let filter = Filter { included: None, excluded: Some(names(&["Greek"])) };
    let mut w = writer();
    write_tables(&mut w, "x", &groups, &filter, false).unwrap();
    let expected = format!(
        "{}\npub const BY_NAME: &'static [(&'static str, &'static [(u32, u32)])] = &[\n  (\"Latin\", LATIN), (\"Thai\", THAI),\n];\n\npub const LATIN: &'static [(u32, u32)] = &[\n  (65, 66),\n];\n\npub const THAI: &'static [(u32, u32)] = &[\n  (3585, 3585),\n];\n",
        HEADER
    );
    assert_eq!(w.into_inner(), expected);
    let mut c = WriterBuilder::new("test");
    c.invocation("ucd-generate test").emit_c(true);
    let mut w = c.from_writer(String::new());
    assert!(write_tables(&mut w, "x", &groups, &filter, true).is_err());
}

#[test]
fn tables_of_scripts() {
    let plain = rows(&[(0x41, 0x42, "Latin"), (0x391, 0x391, "Greek"), (0x43, 0x43, "Latin")]);
    let filter = Filter { included: Some(names(&["Latin"])), excluded: None };
    let mut w = writer();
    command_script(&plain, &filter, false, "SCRIPT", &mut w).unwrap();
    let expected = format!(
        "{}\npub const BY_NAME: &'static [(&'static str, &'static [(u32, u32)])] = &[\n  (\"Latin\", LATIN),\n];\n\npub const LATIN: &'static [(u32, u32)] = &[\n  (65, 67),\n];\n",
        HEADER
    );
    assert_eq!(w.into_inner(), expected);
    let mut w = writer();
    command_script(&plain, &filter, true, "SCRIPT", &mut w).unwrap();
    let expected = format!(
        "{}\npub const SCRIPT_ENUM: &'static [&'static str] = &[\n  \"Greek\", \"Latin\",\n];\n\npub const SCRIPT: &'static [(u32, u32, u8)] = &[\n  (65, 67, 1), (913, 913, 0),\n];\n",
        HEADER
    );
    assert_eq!(w.into_inner(), expected);
}

#[test]
fn scripts_that_codepoints_are_used_in() {
    let extensions = rows(&[(0x30, 0x31, "Grek"), (0x30, 0x30, "Latn"), (0x500, 0x500, "Copt")]);
    let scripts = rows(&[
        (0x30, 0x32, "Zyyy"),
        (0x41, 0x42, "Latn"),
        (0x500, 0x500, "Cyrl"),
        (0x10FFFF, 0x110001, "Zzzz"),
    ]);
    let groups = script_extensions(&extensions, &scripts);
    assert_eq!(
        ranges_by_name(&groups),
        vec![
            ("Copt".to_string(), vec![(0x500, 0x500)]),
            ("Cyrl".to_string(), vec![]),
            ("Grek".to_string(), vec![(0x30, 0x31)]),
            ("Latn".to_string(), vec![(0x30, 0x30), (0x41, 0x42)]),
            ("Zyyy".to_string(), vec![(0x32, 0x32)]),
            ("Zzzz".to_string(), vec![(0x10FFFF, 0x110001)]),
        ]
    );
}

fn shaping(lines: &[&str]) -> Vec<ArabicShaping> {
    lines.iter().map(|line| ArabicShaping::from_str(line).unwrap()).collect()
}

#[test]
fn tables_of_joining_groups() {
    let shaped = shaping(&[
        "0628; BEH; D; BEH",
        "0629; TEH MARBUTA; R; TEH MARBUTA",
        "0600; ARABIC NUMBER SIGN; U; No_Joining_Group",
    ]);
    let plain = ucd_generate::joining_group::group_rows(&shaped);
    assert_eq!(
        plain,
        rows(&[
            (0x628, 0x628, "BEH"),
            (0x629, 0x629, "TEH MARBUTA"),
            (0x600, 0x600, "No_Joining_Group"),
        ])
    );
    let mut w = writer();
    ucd_generate::joining_group::command(&shaped, "No_Joining_Group", true, "jg", &mut w).unwrap();
    let expected = format!(
        "{}\npub const JG_ENUM: &'static [&'static str] = &[\n  \"BEH\", \"No_Joining_Group\", \"TEH MARBUTA\",\n];\n\npub const JG: &'static [(u32, u32, u8)] = &[\n  (0, 1575, 1), (1576, 1576, 0), (1577, 1577, 2), (1578, 1114111, 1),\n];\n",
        HEADER
    );
    assert_eq!(w.into_inner(), expected);
    let shaped = shaping(&[
        "0628; BEH; D; BEH",
        "0627; ALEF; R; ALEF",
        "0622; ALEF WITH MADDA ABOVE; R; ALEF",
        "0600; ARABIC NUMBER SIGN; U; No_Joining_Group",
    ]);
    let mut w = writer();
    ucd_generate::joining_group::command(&shaped, "No_Joining_Group", false, "jg", &mut w).unwrap();
    let expected = format!(
        "{}\npub const BY_NAME: &'static [(&'static str, &'static [(u32, u32)])] = &[\n  (\"ALEF\", ALEF), (\"BEH\", BEH), (\"No_Joining_Group\", NO_JOINING_GROUP),\n];\n\npub const ALEF: &'static [(u32, u32)] = &[\n  (1570, 1570), (1575, 1575),\n];\n\npub const BEH: &'static [(u32, u32)] = &[\n  (1576, 1576),\n];\n\npub const NO_JOINING_GROUP: &'static [(u32, u32)] = &[\n  (0, 1569), (1571, 1574), (1577, 1114111),\n];\n",
        HEADER
    );
    assert_eq!(w.into_inner(), expected);
}

#[test]
fn tables_of_joining_types() {
    let shaped = shaping(&[
        "0628; BEH; D; BEH",
        "0629; TEH MARBUTA; R; TEH MARBUTA",
        "0600; ARABIC NUMBER SIGN; U; No_Joining_Group",
        "0610; ARABIC SIGN; T; No_Joining_Group",
    ]);
    let plain = ucd_generate::joining_type::type_rows(&shaped);
    assert_eq!(
        plain,
        rows(&[(0x628, 0x628, "D"), (0x629, 0x629, "R"), (0x600, 0x600, "U"), (0x610, 0x610, "T")])
    );
    let transparent = [(0x300, 0x36F, "T"), (0x628, 0x628, "T")];
    let mut w = writer();
    ucd_generate::joining_type::command(&shaped, &transparent, true, "jt", &mut w).unwrap();
    let groups = vec![
        ("D".to_string(), vec![0x628]),
        ("R".to_string(), vec![0x629]),
        ("T".to_string(), (0x300..=0x36F).chain(0x610..=0x610).collect()),
        (
            "U".to_string(),
            (0..0x300).chain(0x370..0x610).chain(0x611..0x628).chain(0x62A..=LAST).collect(),
        ),
    ];
    let mut by_hand = writer();
    by_hand.ranges_to_enum("jt", &groups).unwrap();
    let text = w.into_inner();
    assert_eq!(text, by_hand.into_inner());
    assert!(text.contains("\"D\", \"R\", \"T\", \"U\","));
    assert!(text.contains("(0, 767, 3), (768, 879, 2), (880, 1551, 3), (1552, 1552, 2),"));
}

#[test]
fn tables_of_bidi_classes() {
    let plain = rows(&[
        (0x41, 0x41, "L"),
        (0x5D0, 0x5D0, "R"),
        (0x627, 0x627, "AL"),
        (0x24, 0x24, "ET"),
        (0xAD, 0xAD, "BN"),
        (0x600, 0x600, "AN"),
    ]);
    let boundary_neutral = vec![(0xFFF0, 0xFFF8), (0x20A0, 0x20A1), (0xAD, 0xAE)];
    let mut w = writer();
    ucd_generate::bidi_class::command(&plain, &boundary_neutral, true, "bc", &mut w).unwrap();
    let defaults = default_class_assignments();
    let mut groups: Vec<(String, Vec<u32>)> = ["AL", "AN", "BN", "ET", "L", "R"]
        .iter()
        .map(|name| (name.to_string(), vec![]))
        .collect();
    for cp in 0..=LAST {
        let class = match plain.iter().find(|row| row.0 <= cp && cp <= row.1) {
            Some(row) => row.2.as_str(),
            None => match lookup_unassigned(cp, &defaults) {
                Some(class) => class,
                None if boundary_neutral.iter().any(|r| r.0 <= cp && cp <= r.1) => "BN",
                None => "L",
            },
        };
        groups.iter_mut().find(|g| g.0 == class).unwrap().1.push(cp);
    }
    assert!(groups[0].1.contains(&0x601));
    assert!(groups[2].1.contains(&0xAE));
    assert!(groups[3].1.contains(&0x20A0));
    assert!(groups[4].1.contains(&0x42));
    assert!(groups[5].1.contains(&0x5D1));
    let mut by_hand = writer();
    by_hand.ranges_to_enum("bc", &groups).unwrap();
    assert_eq!(w.into_inner(), by_hand.into_inner());
}

#[test]
fn tables_of_script_extensions() {
    let extensions = rows(&[(0x30, 0x31, "Grek"), (0x30, 0x30, "Latn")]);
    let scripts = rows(&[(0x30, 0x32, "Zyyy"), (0x41, 0x42, "Latn")]);
    let filter = Filter { included: None, excluded: Some(names(&["Zyyy"])) };
    let mut w = writer();
    command_script_extension(&extensions, &scripts, &filter, &mut w).unwrap();
    let expected = format!(
        "{}\npub const BY_NAME: &'static [(&'static str, &'static [(u32, u32)])] = &[\n  (\"Grek\", GREK), (\"Latn\", LATN),\n];\n\npub const GREK: &'static [(u32, u32)] = &[\n  (48, 49),\n];\n\npub const LATN: &'static [(u32, u32)] = &[\n  (48, 48), (65, 66),\n];\n",
        HEADER
    );
    assert_eq!(w.into_inner(), expected);
}

#[test]
fn grouping_keeps_the_order_of_first_occurrence() {
    let groups = group_by_value(&rows(&[(5, 6, "z"), (1, 1, "a"), (8, 8, "z")]));
    assert_eq!(
        ranges_by_name(&groups),
        vec![("z".to_string(), vec![(5, 6), (8, 8)]), ("a".to_string(), vec![(1, 1)])]
    );
}

#[test]
fn transparent_general_categories() {
    let categories = rows(&[
        (0x300, 0x36F, "Mn"),
        (0x41, 0x5A, "Lu"),
        (0x488, 0x489, "Me"),
        (0xAD, 0xAD, "Cf"),
        (0x903, 0x903, "Mc"),
        (0x20, 0x20, "mn"),
    ]);
    assert_eq!(
        ucd_generate::joining_type::transparent_ranges(&categories),
        vec![(0x300, 0x36F, "T"), (0x488, 0x489, "T"), (0xAD, 0xAD, "T")]
    );
    assert!(ucd_generate::joining_type::transparent_ranges(&vec![]).is_empty());
}
