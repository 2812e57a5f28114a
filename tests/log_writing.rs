use cc_roots::cc_log::CCLog;
use cc_roots::log_format::format_line;
use cc_roots::log_line::parse_line;

fn rewrite(line: &str) -> String {
    format_line(&parse_line(line).unwrap())
}

#[test]
fn writes_each_record_kind() {
    assert_eq!(rewrite("0x1a2b [gc] Object"), "0x1a2b [gc] Object");
    assert_eq!(rewrite("0xff [gc.marked] Window é"), "0xff [gc.marked] Window é");
    assert_eq!(rewrite("0x3 [rc=42] nsDocument"), "0x3 [rc=42] nsDocument");
    assert_eq!(rewrite("0x3 [rc=0] "), "0x3 [rc=0] ");
    assert_eq!(rewrite("> 0x7f3a12 mChild[i]"), "> 0x7f3a12 mChild[i]");
    assert_eq!(rewrite("IncrementalRoot 0xabc"), "IncrementalRoot 0xabc");
    assert_eq!(rewrite("0x5a [garbage]"), "0x5a [garbage]");
    assert_eq!(rewrite("0x5a [known=7]"), "0x5a [known=7]");
    assert_eq!(rewrite("0xffffffffffffffff [known=2147483647]"), "0xffffffffffffffff [known=2147483647]");
    assert_eq!(rewrite("# anything"), "#");
    assert_eq!(rewrite("="), "==========");
    assert_eq!(
        rewrite("WeakMapEntry map=0x10 key=(nil) keyDelegate=0x20 value=0x0"),
        "WeakMapEntry map=0x10 key=0x0 keyDelegate=0x20 value=0x0"
    );
}

#[test]
fn written_lines_read_back_to_the_same_graph() {
    let text = [
        "# header",
        "0x10 [gc.marked] Window",
        "> 0x20 mDoc",
        "> 0x20 mOther",
        "0x20 [rc=3] nsDocument",
        "> 0x10 mWindow",
        "WeakMapEntry map=0x10 key=0x20 keyDelegate=(nil) value=0x20",
        "IncrementalRoot 0x20",
        "==========",
        "0x20 [known=2]",
        "0x10 [garbage]",
    ];
    let lines: Vec<String> = text.iter().map(|l| l.to_string()).collect();
    let rewritten: Vec<String> = text.iter().map(|l| rewrite(l)).collect();
    let a = CCLog::parse(&lines).unwrap();
    let b = CCLog::parse(&rewritten).unwrap();
    assert_eq!(a.nodes.len(), b.nodes.len());
    for (addr, n) in a.nodes.iter() {
        let m = b.nodes.get(addr).unwrap();
        assert_eq!(n.node_type, m.node_type);
        assert_eq!(a.atom_string(&n.label), b.atom_string(&m.label));
        assert_eq!(n.edges.len(), m.edges.len());
        for (e, f) in n.edges.iter().zip(m.edges.iter()) {
            assert_eq!(e.addr, f.addr);
            assert_eq!(a.atom_string(&e.label), b.atom_string(&f.label));
        }
    }
    assert_eq!(a.weak_map_entries, b.weak_map_entries);
    assert_eq!(a.incr_roots, b.incr_roots);
    assert_eq!(a.garbage, b.garbage);
    assert_eq!(a.known_edges, b.known_edges);
}
