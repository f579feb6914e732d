use emlparser::report::report_rows;
use emlparser::table::CountTable;
use emlparser::tree::{
    count_message_files, has_eml_extension, parse_eml_files, route, Action, EntryKind, Node,
};

fn message(headers: &[(&str, &str)]) -> Vec<u8> {
    let mut raw = String::new();
    for (name, value) in headers {
        raw.push_str(name);
        raw.push_str(": ");
        raw.push_str(value);
        raw.push_str("\r\n");
    }
    raw.push_str("\r\nbody\r\n");
    raw.into_bytes()
}

fn file(name: &str, headers: &[(&str, &str)]) -> Node {
    Node::File { name: name.to_string(), contents: message(headers) }
}

fn raw_file(name: &str, contents: &[u8]) -> Node {
    Node::File { name: name.to_string(), contents: contents.to_vec() }
}

fn directory(name: &str, entries: Vec<Node>) -> Node {
    Node::Directory { name: name.to_string(), entries }
}

fn walk(entries: Vec<Node>) -> CountTable {
    let mut table = CountTable::new();
    parse_eml_files(&entries, &mut table).unwrap();
    table
}

fn sorted(table: &CountTable) -> Vec<(String, u64)> {
    let mut pairs = table.snapshot();
    pairs.sort();
    pairs
}

#[test]
fn the_extension_eml_qualifies() {
    assert!(has_eml_extension("x.eml"));
    assert!(has_eml_extension("msg.eml"));
    assert!(has_eml_extension("a.b.eml"));
    assert!(has_eml_extension("archive.tar.eml"));
    assert!(has_eml_extension("..eml"));
    assert!(has_eml_extension("\u{4fe1}.eml"));
}

#[test]
fn the_extension_match_is_case_sensitive() {
    assert!(!has_eml_extension("z.EML"));
    assert!(!has_eml_extension("z.Eml"));
    assert!(!has_eml_extension("z.emL"));
}

#[test]
fn other_names_do_not_qualify() {
    assert!(!has_eml_extension(""));
    assert!(!has_eml_extension("eml"));
    assert!(!has_eml_extension(".eml"));
    assert!(!has_eml_extension("x.eml."));
    assert!(!has_eml_extension("x.emlx"));
    assert!(!has_eml_extension("x.xeml"));
    assert!(!has_eml_extension("x.eml.txt"));
    assert!(!has_eml_extension("x.eml "));
    assert!(!has_eml_extension("xeml"));
    assert!(!has_eml_extension("x.txt"));
    assert!(!has_eml_extension("x"));
    assert!(!has_eml_extension(".."));
    assert!(!has_eml_extension("."));
}

#[test]
fn the_extension_is_the_one_that_the_standard_path_sees() {
    let names = [
        "x.eml", "z.EML", ".eml", "..eml", "a.b.eml", "x.eml.", "x.emlx", "eml", "x", "", ".", "..",
        "...eml", "x..eml", ".x.eml", "x.eml.eml", " .eml", "x. eml", "\u{4fe1}.eml", "x.e\u{4fe1}l",
    ];
    for name in names {
        let expected = std::path::Path::new(name).extension().and_then(|ext| ext.to_str()) == Some("eml");
        assert_eq!(has_eml_extension(name), expected, "{:?}", name);
    }
}

#[test]
fn a_regular_file_is_parsed_only_with_the_extension() {
    assert_eq!(route(EntryKind::File, "x.eml"), Action::Parse);
    assert_eq!(route(EntryKind::File, "z.EML"), Action::Skip);
    assert_eq!(route(EntryKind::File, "notes.txt"), Action::Skip);
    assert_eq!(route(EntryKind::File, ".eml"), Action::Skip);
}

#[test]
fn a_directory_is_walked_whatever_its_name() {
    assert_eq!(route(EntryKind::Directory, "inbox"), Action::Descend);
    assert_eq!(route(EntryKind::Directory, "inbox.eml"), Action::Descend);
}

#[test]
fn other_entries_are_passed_over() {
    assert_eq!(route(EntryKind::Other, "x.eml"), Action::Skip);
    assert_eq!(route(EntryKind::Other, "socket"), Action::Skip);
}

#[test]
fn a_node_knows_its_kind_and_name() {
    let f = file("x.eml", &[("From", "a@x.com")]);
    let d = directory("inbox", Vec::new());
    let o = Node::Other { name: "pipe".to_string() };
    assert_eq!((f.kind(), f.name()), (EntryKind::File, "x.eml"));
    assert_eq!((d.kind(), d.name()), (EntryKind::Directory, "inbox"));
    assert_eq!((o.kind(), o.name()), (EntryKind::Other, "pipe"));
}

#[test]
fn two_messages_with_differently_written_senders_give_two_keys() {
    let table = walk(vec![
        file("x.eml", &[("Subject", "hi"), ("From", "a@x.com")]),
        file("y.eml", &[("Return-Path", "<a@x.com>"), ("From", "a@x.com")]),
    ]);
    assert_eq!(
        sorted(&table),
        vec![("<a@x.com>".to_string(), 1), ("a@x.com".to_string(), 1)]
    );
}

#[test]
fn an_empty_directory_gives_an_empty_table_and_a_report_of_the_heading_alone() {
    let table = walk(Vec::new());
    assert_eq!(table.len(), 0);
    assert_eq!(table.total(), 0);
    assert!(table.snapshot().is_empty());
    let report = report_rows(&table);
    assert_eq!(report.len(), 1);
    assert_eq!(report[0].address, "Email \u{5730}\u{5740}");
    assert_eq!(report[0].count, "\u{8ba1}\u{6570}");
}

#[test]
fn a_file_with_an_upper_case_extension_is_not_processed() {
    let table = walk(vec![file("z.EML", &[("From", "z@x.com")])]);
    assert_eq!(table.count("z@x.com"), 0);
    assert_eq!(table.len(), 0);
}

#[test]
fn a_file_nested_two_levels_deep_is_counted() {
    let table = walk(vec![directory(
        "one",
        vec![directory("two", vec![file("deep.eml", &[("From", "deep@x.com")])])],
    )]);
    assert_eq!(table.snapshot(), vec![("deep@x.com".to_string(), 1)]);
}

#[test]
fn a_deeply_nested_file_is_processed_like_a_shallow_one() {
    let headers = [("Subject", "hi"), ("Sender", "s@x.com"), ("From", "a@x.com")];
    let deep = walk(vec![directory(
        "a",
        vec![directory("b", vec![directory("c", vec![file("msg.eml", &headers)])])],
    )]);
    let shallow = walk(vec![directory("a", vec![file("msg.eml", &headers)])]);
    assert_eq!(deep.snapshot(), shallow.snapshot());
    assert_eq!(deep.snapshot(), vec![("s@x.com".to_string(), 1)]);
}

#[test]
fn files_without_the_extension_are_left_out_at_any_depth() {
    let table = walk(vec![
        file("top.txt", &[("From", "top@x.com")]),
        directory(
            "a",
            vec![
                file("mid.msg", &[("From", "mid@x.com")]),
                file("kept.eml", &[("From", "kept@x.com")]),
                directory("b", vec![file("low", &[("From", "low@x.com")])]),
            ],
        ),
    ]);
    assert_eq!(table.snapshot(), vec![("kept@x.com".to_string(), 1)]);
}

#[test]
fn the_total_is_the_number_of_message_files_that_have_a_sender() {
    let table = walk(vec![
        file("1.eml", &[("From", "a@x.com")]),
        file("2.eml", &[("Subject", "no sender")]),
        file("3.txt", &[("From", "b@x.com")]),
        directory(
            "sub",
            vec![
                file("4.eml", &[("Reply-To", "a@x.com")]),
                file("5.eml", &[("To", "c@x.com")]),
                directory("subsub", vec![file("6.eml", &[("Sender", "d@x.com")])]),
                Node::Other { name: "7.eml".to_string() },
            ],
        ),
    ]);
    assert_eq!(table.total(), 3);
    assert_eq!(sorted(&table), vec![("a@x.com".to_string(), 2), ("d@x.com".to_string(), 1)]);
}

#[test]
fn the_same_sender_in_many_files_is_counted_once_per_file() {
    let table = walk(vec![
        file("1.eml", &[("From", "a@x.com")]),
        directory("d", vec![file("2.eml", &[("From", "a@x.com")])]),
        file("3.eml", &[("From", "a@x.com"), ("Sender", "a@x.com"), ("Reply-To", "a@x.com")]),
    ]);
    assert_eq!(table.snapshot(), vec![("a@x.com".to_string(), 3)]);
}

#[test]
fn the_entries_are_taken_in_their_order_and_a_directory_in_full() {
    let table = walk(vec![
        file("1.eml", &[("From", "first")]),
        directory("d", vec![file("2.eml", &[("From", "second")]), file("3.eml", &[("From", "third")])]),
        file("4.eml", &[("From", "fourth")]),
    ]);
    let keys: Vec<String> = table.snapshot().into_iter().map(|pair| pair.0).collect();
    assert_eq!(keys, vec!["first", "second", "third", "fourth"]);
}

#[test]
fn another_order_of_the_entries_gives_the_same_counts() {
    let a = || file("a.eml", &[("From", "a@x.com")]);
    let b = || file("b.eml", &[("From", "b@x.com")]);
    let c = || file("c.eml", &[("Sender", "a@x.com")]);
    let d = || directory("d", vec![file("e.eml", &[("From", "b@x.com")]), file("f.eml", &[("From", "c@x.com")])]);
    let one = walk(vec![a(), b(), c(), d()]);
    let two = walk(vec![d(), c(), b(), a()]);
    assert_eq!(sorted(&one), sorted(&two));
    assert_eq!(
        sorted(&one),
        vec![("a@x.com".to_string(), 2), ("b@x.com".to_string(), 2), ("c@x.com".to_string(), 1)]
    );
}

#[test]
fn walking_the_same_tree_again_gives_the_same_table() {
    let tree = || {
        vec![
            file("a.eml", &[("From", "a@x.com")]),
            directory("d", vec![file("b.eml", &[("From", "b@x.com")]), file("c.eml", &[("From", "a@x.com")])]),
        ]
    };
    assert_eq!(walk(tree()).snapshot(), walk(tree()).snapshot());
}

#[test]
fn an_entry_that_is_neither_file_nor_directory_is_ignored() {
    let table = walk(vec![
        Node::Other { name: "dangling.eml".to_string() },
        file("x.eml", &[("From", "a@x.com")]),
    ]);
    assert_eq!(table.snapshot(), vec![("a@x.com".to_string(), 1)]);
}

#[test]
fn a_directory_named_like_a_message_is_walked_not_parsed() {
    let table = walk(vec![directory("box.eml", vec![file("x.eml", &[("From", "a@x.com")])])]);
    assert_eq!(table.snapshot(), vec![("a@x.com".to_string(), 1)]);
}

#[test]
fn a_rejected_message_ends_the_walk_with_what_was_counted_before() {
    let mut table = CountTable::new();
    let outcome = parse_eml_files(
        &vec![
            file("1.eml", &[("From", "a@x.com")]),
            directory("d", vec![raw_file("bad.eml", b" From: b@x.com\n\n")]),
            file("3.eml", &[("From", "c@x.com")]),
        ],
        &mut table,
    );
    assert!(outcome.is_err());
    assert_eq!(table.snapshot(), vec![("a@x.com".to_string(), 1)]);
}

#[test]
fn a_malformed_file_without_the_extension_does_no_harm() {
    let table = walk(vec![
        raw_file("bad.txt", b" From: b@x.com\n\n"),
        file("x.eml", &[("From", "a@x.com")]),
    ]);
    assert_eq!(table.snapshot(), vec![("a@x.com".to_string(), 1)]);
}

#[test]
fn the_walk_adds_to_a_table_that_already_holds_counts() {
    let mut table = CountTable::new();
    table.increment("a@x.com".to_string());
    parse_eml_files(&vec![file("x.eml", &[("From", "a@x.com")])], &mut table).unwrap();
    parse_eml_files(&vec![file("y.eml", &[("From", "b@x.com")])], &mut table).unwrap();
    assert_eq!(
        table.snapshot(),
        vec![("a@x.com".to_string(), 2), ("b@x.com".to_string(), 1)]
    );
}

#[test]
fn message_files_are_counted_at_any_depth() {
    let tree = vec![
        file("1.eml", &[("From", "a@x.com")]),
        file("2.eml", &[("Subject", "no sender")]),
        file("3.txt", &[("From", "b@x.com")]),
        file("4.EML", &[("From", "b@x.com")]),
        directory(
            "sub",
            vec![
                raw_file("5.eml", b" not a message"),
                Node::Other { name: "6.eml".to_string() },
                directory("7.eml", vec![file("8.eml", &[("Sender", "d@x.com")])]),
                directory("empty", Vec::new()),
            ],
        ),
    ];
    assert_eq!(count_message_files(&tree), Some(4));
    assert_eq!(count_message_files(&Vec::new()), Some(0));
}

#[test]
fn a_message_without_a_sender_is_scanned_but_adds_to_no_count() {
    let tree = vec![
        file("1.eml", &[("From", "a@x.com")]),
        file("2.eml", &[("Subject", "no sender")]),
        directory("d", vec![file("3.eml", &[("To", "b@x.com")])]),
    ];
    assert_eq!(count_message_files(&tree), Some(3));
    let table = walk(tree);
    assert_eq!(table.total(), 1);
    assert_eq!(table.snapshot(), vec![("a@x.com".to_string(), 1)]);
}
