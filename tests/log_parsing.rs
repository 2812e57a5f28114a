use cc_roots::cc_log::{CCLog, LogBuilder, LogErrorKind, NodeType, WeakMapEntry};
use cc_roots::log_line::{parse_line, ParsedLine};
use cc_roots::string_intern::StringIntern;

fn lines(text: &[&str]) -> Vec<String> {
    text.iter().map(|l| l.to_string()).collect()
}

#[test]
fn intern_is_idempotent() {
    let mut t = StringIntern::new();
    let a = t.add("JS Object");
    let b = t.add("nsINode");
    let c = t.add("JS Object");
    assert_eq!(a, 0);
    assert_eq!(b, 1);
    assert_eq!(a, c);
    assert_eq!(t.len(), 2);
    assert_eq!(t.get(&a), "JS Object");
    assert_eq!(t.get(&b), "nsINode");
}

#[test]
fn intern_empty_and_unicode() {
    let mut t = StringIntern::new();
    let e = t.add("");
    let u = t.add("Füße ✓");
    assert_eq!(t.get(&e), "");
    assert_eq!(t.get(&u), "Füße ✓");
    assert_eq!(t.add("Füße ✓"), u);
}

#[test]
fn parses_edge_line() {
    match parse_line("> 0x7f3a12 mChild[i]") {
        Some(ParsedLine::Edge(a, l)) => {
            assert_eq!(a, 0x7f3a12);
            assert_eq!(l, "mChild[i]");
        }
        other => panic!("unexpected {:?}", other),
    }
    match parse_line("> 0x10 ") {
        Some(ParsedLine::Edge(a, l)) => {
            assert_eq!(a, 0x10);
            assert_eq!(l, "");
        }
        other => panic!("unexpected {:?}", other),
    }
}

#[test]
fn parses_node_lines() {
    match parse_line("0x1a2b [gc] Object") {
        Some(ParsedLine::Node(a, k, l)) => {
            assert_eq!(a, 0x1a2b);
            assert_eq!(k, NodeType::GC(false));
            assert_eq!(l, "Object");
        }
        other => panic!("unexpected {:?}", other),
    }
    match parse_line("0xff [gc.marked] Window é") {
        Some(ParsedLine::Node(a, k, l)) => {
            assert_eq!(a, 0xff);
            assert_eq!(k, NodeType::GC(true));
            assert_eq!(l, "Window é");
        }
        other => panic!("unexpected {:?}", other),
    }
    match parse_line("0x3 [rc=42] nsDocument") {
        Some(ParsedLine::Node(a, k, l)) => {
            assert_eq!(a, 3);
            assert_eq!(k, NodeType::RefCounted(42));
            assert_eq!(l, "nsDocument");
        }
        other => panic!("unexpected {:?}", other),
    }
}

#[test]
fn parses_result_lines() {
    assert!(matches!(parse_line("0x5a [garbage]"), Some(ParsedLine::Garbage(0x5a))));
    assert!(matches!(parse_line("0x5a [known=7]"), Some(ParsedLine::KnownEdge(0x5a, 7))));
    assert!(parse_line("0x5a [garbage] extra").is_none());
    assert!(parse_line("0x5a [known=7] extra").is_none());
    assert!(parse_line("0x5a [known=]").is_none());
}

#[test]
fn parses_other_lines() {
    assert!(matches!(parse_line("# comment"), Some(ParsedLine::Comment)));
    assert!(matches!(parse_line("=========="), Some(ParsedLine::Separator)));
    assert!(matches!(parse_line("="), Some(ParsedLine::Separator)));
    assert!(parse_line("===x").is_none());
    assert!(matches!(parse_line("IncrementalRoot 0xabc"), Some(ParsedLine::IncrRoot(0xabc))));
    assert!(parse_line("IncrementalRoot abc").is_none());
}

#[test]
fn parses_weak_map_entry() {
    let w = parse_line("WeakMapEntry map=0x10 key=(nil) keyDelegate=0x20 value=(nil)");
    match w {
        Some(ParsedLine::WeakMap(e)) => assert_eq!(
            e,
            WeakMapEntry { weak_map: 0x10, key: 0, key_delegate: 0x20, value: 0 }
        ),
        other => panic!("unexpected {:?}", other),
    }
    assert!(parse_line("WeakMapEntry map=0x10 key=0x1").is_none());
}

#[test]
fn refuses_malformed_lines() {
    assert!(parse_line("").is_none());
    assert!(parse_line("hello").is_none());
    assert!(parse_line("0xG1 [gc] x").is_none());
    assert!(parse_line("0xAB [gc] x").is_none());
    assert!(parse_line("0x1 [gc]").is_none());
    assert!(parse_line("0x1 [rc=3]x").is_none());
    assert!(parse_line(">0x1 label").is_none());
    assert!(parse_line("> 0x1").is_none());
    assert!(parse_line("0x [gc] x").is_none());
}

#[test]
fn address_that_overflows_is_refused() {
    assert!(matches!(
        parse_line("0xffffffffffffffff [gc] x"),
        Some(ParsedLine::Node(u64::MAX, _, _))
    ));
    assert!(parse_line("0x10000000000000000 [gc] x").is_none());
    assert!(parse_line("0x1 [rc=2147483648] x").is_none());
    assert!(matches!(
        parse_line("0x1 [rc=2147483647] x"),
        Some(ParsedLine::Node(1, NodeType::RefCounted(2147483647), _))
    ));
}

#[test]
fn atomize_addr_reads_hex() {
    assert_eq!(CCLog::atomize_addr("0x1f"), Some(31));
    assert_eq!(CCLog::atomize_addr("1f"), Some(31));
    assert_eq!(CCLog::atomize_addr("ffffffffffffffff"), Some(u64::MAX));
    assert_eq!(CCLog::atomize_addr("10000000000000000"), None);
    assert_eq!(CCLog::atomize_addr("0x"), None);
    assert_eq!(CCLog::atomize_addr(""), None);
    assert_eq!(CCLog::atomize_addr("xyz"), None);
    assert_eq!(CCLog::atomize_addr("12 "), None);
}

#[test]
fn builds_graph_from_log() {
    let log = CCLog::parse(&lines(&[
        "# a comment",
        "0x10 [gc.marked] Window",
        "> 0x20 mDoc",
        "> 0x20 mOther",
        "> 0x30 child",
        "0x20 [rc=3] nsDocument",
        "0x30 [gc] Object",
        "WeakMapEntry map=0x10 key=0x20 keyDelegate=(nil) value=0x30",
        "IncrementalRoot 0x30",
        "==========",
        "0x20 [known=2]",
        "0x30 [garbage]",
    ]))
    .unwrap();
    assert_eq!(log.nodes.len(), 3);
    let n = log.nodes.get(&0x10).unwrap();
    assert_eq!(n.node_type, NodeType::GC(true));
    assert_eq!(n.edges.len(), 3);
    assert_eq!(n.edges[0].addr, 0x20);
    assert_eq!(log.atom_string(&n.edges[1].label), "mOther");
    assert_eq!(n.edges[2].addr, 0x30);
    assert_eq!(log.node_label(&0x20), Some("nsDocument".to_string()));
    assert_eq!(log.node_label(&0x99), None);
    assert_eq!(log.nodes.get(&0x20).unwrap().node_type, NodeType::RefCounted(3));
    assert_eq!(log.weak_map_entries.len(), 1);
    assert_eq!(log.weak_map_entries[0].key_delegate, 0);
    assert!(log.incr_roots.contains(&0x30));
    assert!(log.garbage.contains(&0x30));
    assert_eq!(log.known_edges.get(&0x20), Some(&2));
}

#[test]
fn duplicate_node_is_refused() {
    let r = CCLog::parse(&lines(&["0x1 [gc] A", "> 0x2 e", "0x2 [gc] B", "0x1 [rc=1] C", "="]));
    match r {
        Err(e) => {
            assert_eq!(e.kind, LogErrorKind::DuplicateNode(1));
            assert_eq!(e.line_number, 4);
            assert_eq!(e.text, "0x1 [rc=1] C");
        }
        Ok(_) => panic!("duplicate node accepted"),
    }
    let r = CCLog::parse(&lines(&["0x1 [gc] A", "0x1 [gc] A", "="]));
    assert_eq!(r.err().unwrap().kind, LogErrorKind::DuplicateNode(1));
}

#[test]
fn missing_separator_is_refused() {
    let r = CCLog::parse(&lines(&["0x1 [gc.marked] A", "> 0x2 e", "0x2 [gc] B"]));
    match r {
        Err(e) => {
            assert_eq!(e.kind, LogErrorKind::MissingSeparator);
            assert_eq!(e.line_number, 3);
            assert_eq!(e.text, "");
        }
        Ok(_) => panic!("log without separator accepted"),
    }
    let empty: Vec<String> = Vec::new();
    assert_eq!(CCLog::parse(&empty).err().unwrap().kind, LogErrorKind::MissingSeparator);
}

#[test]
fn malformed_line_is_reported_with_its_text() {
    let r = CCLog::parse(&lines(&["0x1 [gc] A", "bogus line", "="]));
    let e = r.err().unwrap();
    assert_eq!(e.kind, LogErrorKind::Malformed);
    assert_eq!(e.line_number, 2);
    assert_eq!(e.text, "bogus line");
}

#[test]
fn structural_errors_are_reported() {
    let kind = |t: &[&str]| CCLog::parse(&lines(t)).err().map(|e| (e.kind, e.line_number));
    assert_eq!(kind(&["> 0x1 e", "="]), Some((LogErrorKind::EdgeWithoutNode, 1)));
    assert_eq!(kind(&["0x1 [gc] A", "=", "> 0x1 e"]), Some((LogErrorKind::OutOfSection, 3)));
    assert_eq!(kind(&["0x1 [gc] A", "=", "0x2 [gc] B"]), Some((LogErrorKind::OutOfSection, 3)));
    assert_eq!(kind(&["0x1 [garbage]", "="]), Some((LogErrorKind::OutOfSection, 1)));
    assert_eq!(kind(&["=", "="]), Some((LogErrorKind::OutOfSection, 2)));
    assert_eq!(
        kind(&["=", "0x1 [garbage]", "0x1 [garbage]"]),
        Some((LogErrorKind::DuplicateGarbage(1), 3))
    );
    assert_eq!(
        kind(&["=", "0x1 [known=1]", "0x1 [known=2]"]),
        Some((LogErrorKind::DuplicateKnownEdge(1), 3))
    );
    assert_eq!(kind(&["0x1 [gc] A", "=", "# fine"]), None);
}

#[test]
fn builder_reads_line_by_line() {
    let mut b = LogBuilder::new();
    assert!(b.add_line("0x1 [gc.marked] A").is_ok());
    assert!(b.add_line("> 0x1 self").is_ok());
    assert!(b.add_line("====").is_ok());
    let log = b.finish().unwrap();
    assert_eq!(log.nodes.get(&1).unwrap().edges.len(), 1);
    let mut b = LogBuilder::new();
    let e = b.add_line("0x1 [garbage]").err().unwrap();
    assert_eq!(e.kind, LogErrorKind::OutOfSection);
    assert_eq!(e.line_number, 1);
}
