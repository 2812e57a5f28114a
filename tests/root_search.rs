use cc_roots::cc_log::CCLog;
use cc_roots::find_roots::{
    edge_labels, edge_noun, explain_root, find_roots, root_addrs, search_roots, RootExplanation,
    RootKind, SearchError,
};

fn parse(text: &[&str]) -> CCLog {
    let v: Vec<String> = text.iter().map(|l| l.to_string()).collect();
    CCLog::parse(&v).unwrap()
}

#[test]
fn three_node_log_with_known_edge() {
    // B has a known-edge count, which makes it a root of its own.
    let log = parse(&[
        "0xa [gc.marked] A",
        "> 0xb a_to_b",
        "0xb [rc=2] B",
        "> 0xc b_to_c",
        "0xc [rc=1] C",
        "==========",
        "0xb [known=1]",
    ]);
    let rp = find_roots(&log, 0xc).unwrap().unwrap();
    assert_eq!(rp.path, vec![0xb, 0xc]);
    assert_eq!(
        rp.explanation,
        RootExplanation { root: 0xb, kind: RootKind::RefCounted { unknown: 1 }, incremental: false }
    );
    assert_eq!(
        explain_root(&log, 0xa),
        Ok(RootExplanation { root: 0xa, kind: RootKind::Marked, incremental: false })
    );
    assert_eq!(edge_labels(&log, 0xb, 0xc), vec!["b_to_c".to_string()]);
}

#[test]
fn three_node_log_through_marked_root() {
    let log = parse(&[
        "0xa [gc.marked] A",
        "> 0xb a_to_b",
        "0xb [rc=2] B",
        "> 0xc b_to_c",
        "0xc [rc=1] C",
        "==========",
    ]);
    let rp = find_roots(&log, 0xc).unwrap().unwrap();
    assert_eq!(rp.path, vec![0xa, 0xb, 0xc]);
    assert_eq!(rp.explanation.kind, RootKind::Marked);
    assert_eq!(rp.explanation.root, 0xa);
    assert!(!rp.explanation.incremental);
}

#[test]
fn absent_target_is_a_query_error() {
    let log = parse(&["0xa [gc.marked] A", "="]);
    assert_eq!(find_roots(&log, 0xdead).err(), Some(SearchError::UnknownTarget(0xdead)));
}

#[test]
fn unreachable_target_has_no_path() {
    let log = parse(&["0xa [gc.marked] A", "0xb [rc=1] B", "> 0xa back", "="]);
    assert!(find_roots(&log, 0xb).unwrap().is_none());
    assert!(find_roots(&log, 0xa).unwrap().is_some());
}

#[test]
fn edge_to_missing_node_is_an_error() {
    let log = parse(&["0xa [gc.marked] A", "> 0xb e", "0xc [gc] C", "="]);
    assert_eq!(find_roots(&log, 0xc).err(), Some(SearchError::MissingNode(0xb)));
}

#[test]
fn unmarked_traced_root_is_an_error() {
    let log = parse(&["0x1 [gc] X", "IncrementalRoot 0x1", "="]);
    assert_eq!(find_roots(&log, 0x1).err(), Some(SearchError::UnmarkedRoot(0x1)));
}

#[test]
fn ref_counted_root_explanations() {
    let log = parse(&[
        "0x1 [rc=5] Five",
        "0x2 [rc=1] One",
        "0x3 [rc=4] Incremental",
        "0x4 [rc=2] Lonely",
        "IncrementalRoot 0x3",
        "IncrementalRoot 0x2",
        "=",
        "0x1 [known=3]",
        "0x2 [known=1]",
    ]);
    let five = explain_root(&log, 0x1).unwrap();
    assert_eq!(five.kind, RootKind::RefCounted { unknown: 2 });
    assert!(!five.incremental);
    let one = explain_root(&log, 0x2).unwrap();
    assert_eq!(one.kind, RootKind::RefCounted { unknown: 0 });
    assert!(one.incremental);
    let inc = explain_root(&log, 0x3).unwrap();
    assert_eq!(inc.kind, RootKind::RefCounted { unknown: 0 });
    assert!(inc.incremental);
    assert_eq!(explain_root(&log, 0x4), Err(SearchError::UnexplainedRoot(0x4)));
    assert_eq!(explain_root(&log, 0x9), Err(SearchError::MissingNode(0x9)));
}

#[test]
fn edge_noun_agrees_with_count() {
    assert_eq!(edge_noun(1), "edge");
    assert_eq!(edge_noun(0), "edges");
    assert_eq!(edge_noun(2), "edges");
    assert_eq!(edge_noun(-1), "edges");
}

#[test]
fn distances_are_shortest() {
    // a -> b -> c -> d and a -> d: d is one step from the root.
    let log = parse(&[
        "0xa [gc.marked] A",
        "> 0xb ab",
        "> 0xd ad",
        "0xb [gc] B",
        "> 0xc bc",
        "0xc [gc] C",
        "> 0xd cd",
        "0xd [gc] D",
        "0xe [gc] E",
        "=",
    ]);
    let t = search_roots(&log).unwrap();
    assert_eq!(t.dist.get(&0xa), Some(&(0, None)));
    assert_eq!(t.dist.get(&0xb), Some(&(1, Some(0xa))));
    assert_eq!(t.dist.get(&0xc), Some(&(2, Some(0xb))));
    assert_eq!(t.dist.get(&0xd), Some(&(1, Some(0xa))));
    assert_eq!(t.dist.get(&0xe), None);
    assert_eq!(find_roots(&log, 0xd).unwrap().unwrap().path, vec![0xa, 0xd]);
}

#[test]
fn roots_come_from_three_sources() {
    let log = parse(&[
        "0x1 [gc.marked] A",
        "0x2 [gc] B",
        "0x3 [rc=1] C",
        "0x4 [rc=1] D",
        "IncrementalRoot 0x3",
        "=",
        "0x4 [known=1]",
    ]);
    assert_eq!(root_addrs(&log), vec![4, 3, 1]);
    let both = parse(&["0x1 [rc=2] A", "IncrementalRoot 0x1", "=", "0x1 [known=1]"]);
    assert_eq!(root_addrs(&both), vec![1, 1]);
    let rp = find_roots(&both, 0x1).unwrap().unwrap();
    assert_eq!(rp.path, vec![1]);
    assert_eq!(
        rp.explanation,
        RootExplanation { root: 1, kind: RootKind::RefCounted { unknown: 1 }, incremental: true }
    );
}

#[test]
fn repeated_edges_keep_all_labels() {
    let log = parse(&["0x1 [gc.marked] A", "> 0x2 first", "> 0x3 other", "> 0x2 second", "0x2 [gc] B", "0x3 [gc] C", "="]);
    assert_eq!(edge_labels(&log, 0x1, 0x2), vec!["first".to_string(), "second".to_string()]);
    assert!(edge_labels(&log, 0x2, 0x1).is_empty());
    assert!(edge_labels(&log, 0x9, 0x1).is_empty());
}

#[test]
fn repeated_queries_give_the_same_answer() {
    let log = parse(&["0x1 [gc.marked] A", "> 0x2 e", "0x2 [gc] B", "="]);
    let first = find_roots(&log, 0x2).unwrap().unwrap();
    let second = find_roots(&log, 0x2).unwrap().unwrap();
    assert_eq!(first.path, second.path);
    assert_eq!(first.path, vec![1, 2]);
    assert_eq!(log.nodes.len(), 2);
}
