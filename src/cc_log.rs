//! The graph that a log describes, and the reading of a log line by line
//! into it.
use std::collections::HashMap;
use std::collections::HashSet;
use vstd::prelude::*;
use vstd::std_specs::hash::group_hash_axioms;
use vstd::string::StringSliceAdditionalSpecFns;
use vstd::utf8::encode_utf8;

use crate::log_line::{hex_end, hex_value, line_model, parse_line, read_addr_val, LineModel, ParsedLine};
use crate::string_intern::{after_intern, Atom, StringIntern};

verus! {

broadcast use group_hash_axioms;

/// The address of a heap object.
pub type Addr = u64;

/// One entry of a weak map, as the log lists it; `(nil)` fields read as `0`.
#[derive(Clone, Copy, Debug, PartialEq, Eq, Structural)]
pub struct WeakMapEntry {
    pub weak_map: Addr,
    pub key: Addr,
    pub key_delegate: Addr,
    pub value: Addr,
}

/// How an object is managed: by reference counting, with its count, or by
/// the tracing collector, with whether the tracer marked it.
#[derive(Clone, Copy, Debug, PartialEq, Eq, Structural)]
pub enum NodeType {
    RefCounted(i32),
    GC(bool),
}

/// A reference to `addr`, labelled with why it is held.
#[derive(Clone, Copy, Debug, PartialEq, Eq, Structural)]
pub struct EdgeInfo {
    pub addr: Addr,
    pub label: Atom,
}

impl EdgeInfo {
    pub fn new(addr: Addr, label: Atom) -> (r: EdgeInfo)
        ensures
            r == (EdgeInfo { addr, label }),
    {
        EdgeInfo { addr: addr, label: label }
    }
}

/// An object of the heap with its outgoing references, in the order of the
/// log. Several edges may lead to the same address.
pub struct GraphNode {
    pub node_type: NodeType,
    pub label: Atom,
    pub edges: Vec<EdgeInfo>,
}

impl GraphNode {
    pub fn new(node_type: NodeType, label: Atom) -> (r: GraphNode)
        ensures
            r.node_type == node_type,
            r.label == label,
            r.edges@ == Seq::<EdgeInfo>::empty(),
    {
        GraphNode { node_type: node_type, label: label, edges: Vec::new() }
    }
}

/// A node with its labels as text.
pub struct NodeModel {
    pub kind: NodeType,
    pub label: Seq<char>,
    pub edges: Seq<(Addr, Seq<char>)>,
}

/// The graph that a log describes, with labels as text.
pub struct GraphModel {
    pub nodes: Map<Addr, NodeModel>,
    pub weak_map_entries: Seq<WeakMapEntry>,
    pub incr_roots: Set<Addr>,
    pub garbage: Set<Addr>,
    pub known_edges: Map<Addr, i32>,
}

/// The labels of `n` are atoms of a table of `n_atoms` strings.
pub open spec fn node_labels_below(n: GraphNode, n_atoms: nat) -> bool {
    &&& n.label < n_atoms
    &&& forall|i: int| 0 <= i < n.edges@.len() ==> #[trigger] n.edges@[i].label < n_atoms
}

/// `n` with its atoms resolved in `atoms`.
pub open spec fn node_model(n: GraphNode, atoms: Seq<Seq<char>>) -> NodeModel {
    NodeModel {
        kind: n.node_type,
        label: atoms[n.label as int],
        edges: n.edges@.map_values(|e: EdgeInfo| (e.addr, atoms[e.label as int])),
    }
}

/// `a2` keeps the strings of `a1` at their atoms.
pub open spec fn extends(a1: Seq<Seq<char>>, a2: Seq<Seq<char>>) -> bool {
    a1.len() <= a2.len() && forall|i: int| 0 <= i < a1.len() ==> #[trigger] a2[i] == a1[i]
}

proof fn lemma_node_model_stable(n: GraphNode, a1: Seq<Seq<char>>, a2: Seq<Seq<char>>)
    requires
        node_labels_below(n, a1.len()),
        extends(a1, a2),
    ensures
        node_labels_below(n, a2.len()),
        node_model(n, a2) == node_model(n, a1),
{
    assert(node_model(n, a2).edges =~= node_model(n, a1).edges);
}

/// A graph read from a log: its nodes by address, the weak map entries, the
/// incremental roots, and the collector's results.
pub struct CCLog {
    pub nodes: HashMap<Addr, GraphNode>,
    pub weak_map_entries: Vec<WeakMapEntry>,
    pub incr_roots: HashSet<Addr>,
    pub atoms: StringIntern,
    pub garbage: HashSet<Addr>,
    pub known_edges: HashMap<Addr, i32>,
}

impl View for CCLog {
    type V = GraphModel;

    open spec fn view(&self) -> GraphModel {
        GraphModel {
            nodes: self.nodes@.map_values(|n: GraphNode| node_model(n, self.atoms@)),
            weak_map_entries: self.weak_map_entries@,
            incr_roots: self.incr_roots@,
            garbage: self.garbage@,
            known_edges: self.known_edges@,
        }
    }
}

impl CCLog {
    /// Every label in the graph is an atom of the log's own table.
    pub open spec fn wf(&self) -> bool {
        &&& self.atoms.wf()
        &&& forall|a: Addr| #[trigger]
            self.nodes@.contains_key(a) ==> node_labels_below(self.nodes@[a], self.atoms@.len())
    }

    /// The strings of the log's table, indexed by atom.
    pub open spec fn atoms(&self) -> Seq<Seq<char>> {
        self.atoms@
    }

    pub proof fn lemma_node_view(&self, a: Addr)
        requires
            self.wf(),
            self.nodes@.contains_key(a),
        ensures
            self@.nodes.contains_key(a),
            self@.nodes[a] == node_model(self.nodes@[a], self.atoms()),
            node_labels_below(self.nodes@[a], self.atoms().len()),
    {
    }

    fn new() -> (r: CCLog)
        ensures
            r.wf(),
            r@ == empty_graph(),
    {
        let r = CCLog {
            nodes: HashMap::new(),
            weak_map_entries: Vec::new(),
            incr_roots: HashSet::new(),
            atoms: StringIntern::new(),
            garbage: HashSet::new(),
            known_edges: HashMap::new(),
        };
        assert(r@.nodes =~= Map::<Addr, NodeModel>::empty());
        r
    }

    /// The atom of `label` in the log's table, added if it is new.
    pub fn atomize_label(&mut self, label: &str) -> (r: Atom)
        requires
            old(self).wf(),
        ensures
            final(self).wf(),
            final(self).atoms() == after_intern(old(self).atoms(), label@),
            final(self)@ == old(self)@,
            final(self).nodes@ == old(self).nodes@,
            r < final(self).atoms().len(),
            final(self).atoms()[r as int] == label@,
    {
        let ghost a1 = self.atoms@;
        let r = self.atoms.add(label);
        proof {
            assert(extends(a1, self.atoms@));
            assert forall|a: Addr| #[trigger] self.nodes@.contains_key(a) implies node_labels_below(
                self.nodes@[a],
                self.atoms@.len(),
            ) by {
                lemma_node_model_stable(self.nodes@[a], a1, self.atoms@);
            }
            assert forall|a: Addr| #[trigger] self.nodes@.contains_key(a) implies node_model(
                self.nodes@[a],
                self.atoms@,
            ) == node_model(self.nodes@[a], a1) by {
                lemma_node_model_stable(self.nodes@[a], a1, self.atoms@);
            }
            assert(self@.nodes =~= old(self)@.nodes);
        }
        r
    }

    /// The string that atom `a` stands for.
    pub fn atom_string(&self, a: &Atom) -> (r: String)
        requires
            self.wf(),
            *a < self.atoms().len(),
        ensures
            r@ == self.atoms()[*a as int],
    {
        self.atoms.get(a).to_owned()
    }

    /// The number of atoms in the log's table.
    pub fn atom_count(&self) -> (r: usize)
        requires
            self.wf(),
        ensures
            r == self.atoms().len(),
    {
        self.atoms.len()
    }

    /// Reads the graph that the log `lines` describes: the graph section,
    /// one separator line, and the results section.
    pub fn parse(lines: &[String]) -> (r: Result<CCLog, LogError>)
        ensures
            match log_model(texts(lines@)) {
                Ok(g) => r matches Ok(log) && log.wf() && log@ == g,
                Err((n, k)) => r matches Err(e) && e.line_number == n && e.kind == k && (k
                    != LogErrorKind::MissingSeparator ==> e.text@ == lines@[n - 1]@) && (k
                    == LogErrorKind::MissingSeparator ==> e.text@ == Seq::<char>::empty()),
            },
    {
        let mut b = LogBuilder::new();
        let mut i: usize = 0;
        while i < lines.len()
            invariant
                0 <= i <= lines@.len(),
                b.wf(),
                b.lines_read() == i,
                build(texts(lines@).subrange(0, i as int)) == Ok::<BuildState, (int, LogErrorKind)>(
                    b.state(),
                ),
            decreases lines@.len() - i,
        {
            proof {
                assert(texts(lines@).subrange(0, i + 1).drop_last() =~= texts(lines@).subrange(
                    0,
                    i as int,
                ));
                assert(texts(lines@).subrange(0, i + 1).last() == lines@[i as int]@);
            }
            let r = b.add_line(lines[i].as_str());
            match r {
                Err(e) => {
                    proof {
                        lemma_build_error_stays(texts(lines@), i + 1);
                    }
                    return Err(e);
                },
                Ok(()) => {},
            }
            i = i + 1;
        }
        proof {
            assert(texts(lines@).subrange(0, lines@.len() as int) =~= texts(lines@));
        }
        b.finish()
    }

    /// Reads an address given as hexadecimal digits, with or without `0x`
    /// before them; `None` where the text is no such address.
    pub fn atomize_addr(addr_str: &str) -> (r: Option<Addr>)
        ensures
            r == addr_text(addr_str.spec_bytes()),
    {
        let s = addr_str.as_bytes();
        let start: usize = if s.len() >= 2 && s[0] == 48 && s[1] == 120 {
            2
        } else {
            0
        };
        match read_addr_val(s, start) {
            Some((v, e)) => if e == s.len() && e > start {
                Some(v)
            } else {
                None
            },
            None => None,
        }
    }

    /// The label of the node at `node`, if there is one.
    pub fn node_label(&self, node: &Addr) -> (r: Option<String>)
        requires
            self.wf(),
        ensures
            match r {
                Some(s) => self@.nodes.contains_key(*node) && s@ == self@.nodes[*node].label,
                None => !self@.nodes.contains_key(*node),
            },
    {
        match self.nodes.get(node) {
            Some(g) => {
                proof {
                    self.lemma_node_view(*node);
                }
                Some(self.atom_string(&g.label))
            },
            None => None,
        }
    }
}

/// The address that `s` writes in hexadecimal, after an optional `0x`.
pub open spec fn addr_text(s: Seq<u8>) -> Option<Addr> {
    let start: int = if s.len() >= 2 && s[0] == 48 && s[1] == 120 {
        2
    } else {
        0
    };
    let e = hex_end(s, start);
    if e == s.len() && e > start && hex_value(s.subrange(start, e)) <= u64::MAX {
        Some(hex_value(s.subrange(start, e)) as u64)
    } else {
        None
    }
}

/// A graph with nothing in it.
pub open spec fn empty_graph() -> GraphModel {
    GraphModel {
        nodes: Map::empty(),
        weak_map_entries: Seq::empty(),
        incr_roots: Set::empty(),
        garbage: Set::empty(),
        known_edges: Map::empty(),
    }
}

/// Why a log was refused.
#[derive(Clone, Copy, Debug, PartialEq, Eq, Structural)]
pub enum LogErrorKind {
    /// The line has none of the known shapes.
    Malformed,
    /// A second node declaration with the same address.
    DuplicateNode(Addr),
    /// A second `known` result for the same address.
    DuplicateKnownEdge(Addr),
    /// A second `garbage` result for the same address.
    DuplicateGarbage(Addr),
    /// An edge with no node declared before it.
    EdgeWithoutNode,
    /// A graph record after the separator, a result before it, or a second
    /// separator.
    OutOfSection,
    /// The input ended before the separator.
    MissingSeparator,
}

/// A refused log: the number of the offending line, counted from 1 (for a
/// missing separator, the number of lines read), what is wrong, and the
/// line's text (empty for a missing separator).
#[derive(Debug)]
pub struct LogError {
    pub line_number: usize,
    pub kind: LogErrorKind,
    pub text: String,
}

/// Where the reading of a log stands: the graph so far, the node whose edges
/// are being read, and whether the separator has been seen.
pub struct BuildState {
    pub graph: GraphModel,
    pub current: Option<(Addr, NodeModel)>,
    pub in_results: bool,
}

pub open spec fn initial_state() -> BuildState {
    BuildState { graph: empty_graph(), current: None, in_results: false }
}

/// The graph with the node being read put in its table.
pub open spec fn flush(st: BuildState) -> GraphModel {
    match st.current {
        Some((a, n)) => GraphModel { nodes: st.graph.nodes.insert(a, n), ..st.graph },
        None => st.graph,
    }
}

/// What one record does to the state.
pub open spec fn step(st: BuildState, rec: LineModel) -> Result<BuildState, LogErrorKind> {
    match rec {
        LineModel::Comment => Ok(st),
        LineModel::Node(a, k, l) => if st.in_results {
            Err(LogErrorKind::OutOfSection)
        } else if st.graph.nodes.contains_key(a) || (st.current matches Some((c, _)) && c == a) {
            Err(LogErrorKind::DuplicateNode(a))
        } else {
            Ok(
                BuildState {
                    graph: flush(st),
                    current: Some((a, NodeModel { kind: k, label: l, edges: Seq::empty() })),
                    in_results: false,
                },
            )
        },
        LineModel::Edge(a, l) => if st.in_results {
            Err(LogErrorKind::OutOfSection)
        } else {
            match st.current {
                None => Err(LogErrorKind::EdgeWithoutNode),
                Some((c, n)) => Ok(
                    BuildState {
                        current: Some((c, NodeModel { edges: n.edges.push((a, l)), ..n })),
                        ..st
                    },
                ),
            }
        },
        LineModel::WeakMap(w) => if st.in_results {
            Err(LogErrorKind::OutOfSection)
        } else {
            Ok(
                BuildState {
                    graph: GraphModel {
                        weak_map_entries: st.graph.weak_map_entries.push(w),
                        ..st.graph
                    },
                    ..st
                },
            )
        },
        LineModel::IncrRoot(a) => if st.in_results {
            Err(LogErrorKind::OutOfSection)
        } else {
            Ok(
                BuildState {
                    graph: GraphModel { incr_roots: st.graph.incr_roots.insert(a), ..st.graph },
                    ..st
                },
            )
        },
        LineModel::Separator => if st.in_results {
            Err(LogErrorKind::OutOfSection)
        } else {
            Ok(BuildState { graph: flush(st), current: None, in_results: true })
        },
        LineModel::Garbage(a) => if !st.in_results {
            Err(LogErrorKind::OutOfSection)
        } else if st.graph.garbage.contains(a) {
            Err(LogErrorKind::DuplicateGarbage(a))
        } else {
            Ok(
                BuildState {
                    graph: GraphModel { garbage: st.graph.garbage.insert(a), ..st.graph },
                    ..st
                },
            )
        },
        LineModel::KnownEdge(a, n) => if !st.in_results {
            Err(LogErrorKind::OutOfSection)
        } else if st.graph.known_edges.contains_key(a) {
            Err(LogErrorKind::DuplicateKnownEdge(a))
        } else {
            Ok(
                BuildState {
                    graph: GraphModel { known_edges: st.graph.known_edges.insert(a, n), ..st.graph },
                    ..st
                },
            )
        },
    }
}

/// A node declaration at an address that is taken, in the table or by the
/// node being read, is refused with a duplicate-node error.
pub proof fn lemma_duplicate_node_refused(st: BuildState, a: Addr, kind: NodeType, label: Seq<char>)
    requires
        !st.in_results,
        st.graph.nodes.contains_key(a) || (st.current matches Some((c, _)) && c == a),
    ensures
        step(st, LineModel::Node(a, kind, label)) == Err::<BuildState, LogErrorKind>(
            LogErrorKind::DuplicateNode(a),
        ),
{
}

/// No record overwrites a node already in the table: every step that
/// succeeds keeps each of them as it was.
pub proof fn lemma_nodes_kept(st: BuildState, rec: LineModel)
    requires
        st.current matches Some((c, _)) ==> !st.graph.nodes.contains_key(c),
    ensures
        step(st, rec) matches Ok(s2) ==> forall|a: Addr| #[trigger]
            st.graph.nodes.contains_key(a) ==> s2.graph.nodes.contains_key(a) && s2.graph.nodes[a]
                == st.graph.nodes[a],
{
}

/// What one line of text does to the state.
pub open spec fn line_step(st: BuildState, text: Seq<char>) -> Result<BuildState, LogErrorKind> {
    match line_model(encode_utf8(text)) {
        None => Err(LogErrorKind::Malformed),
        Some(rec) => step(st, rec),
    }
}

/// The state after the lines `lines`, or the number of the first line that
/// fails (counted from 1) with what is wrong.
pub open spec fn build(lines: Seq<Seq<char>>) -> Result<BuildState, (int, LogErrorKind)>
    decreases lines.len(),
{
    if lines.len() == 0 {
        Ok(initial_state())
    } else {
        match build(lines.drop_last()) {
            Err(e) => Err(e),
            Ok(st) => match line_step(st, lines.last()) {
                Ok(s2) => Ok(s2),
                Err(k) => Err((lines.len() as int, k)),
            },
        }
    }
}

/// The graph that the log `lines` describes, or where and why it is refused.
pub open spec fn log_model(lines: Seq<Seq<char>>) -> Result<GraphModel, (int, LogErrorKind)> {
    match build(lines) {
        Err(e) => Err(e),
        Ok(st) => if st.in_results {
            Ok(st.graph)
        } else {
            Err((lines.len() as int, LogErrorKind::MissingSeparator))
        },
    }
}

/// The texts of `lines`.
pub open spec fn texts(lines: Seq<String>) -> Seq<Seq<char>> {
    lines.map_values(|l: String| l@)
}

pub(crate) proof fn lemma_build_error_stays(lines: Seq<Seq<char>>, j: int)
    requires
        0 <= j <= lines.len(),
        build(lines.subrange(0, j)) is Err,
    ensures
        build(lines) == build(lines.subrange(0, j)),
    decreases lines.len() - j,
{
    if j < lines.len() {
        assert(lines.subrange(0, j + 1).drop_last() =~= lines.subrange(0, j));
        lemma_build_error_stays(lines, j + 1);
    } else {
        assert(lines.subrange(0, j) =~= lines);
    }
}

/// Reads a log line by line.
pub struct LogBuilder {
    log: CCLog,
    current: Option<(Addr, GraphNode)>,
    in_results: bool,
    line_count: usize,
}

impl LogBuilder {
    pub closed spec fn state(&self) -> BuildState {
        BuildState {
            graph: self.log@,
            current: match self.current {
                Some((a, n)) => Some((a, node_model(n, self.log.atoms@))),
                None => None,
            },
            in_results: self.in_results,
        }
    }

    /// The number of lines read.
    pub closed spec fn lines_read(&self) -> nat {
        self.line_count as nat
    }

    pub closed spec fn wf(&self) -> bool {
        &&& self.log.wf()
        &&& (self.current matches Some((_, n)) ==> node_labels_below(n, self.log.atoms@.len()))
        &&& (self.current matches Some((a, _)) ==> !self.log.nodes@.contains_key(a))
        &&& (self.in_results ==> self.current is None)
    }

    pub fn new() -> (r: LogBuilder)
        ensures
            r.wf(),
            r.state() == initial_state(),
            r.lines_read() == 0,
    {
        LogBuilder { log: CCLog::new(), current: None, in_results: false, line_count: 0 }
    }

    /// Puts the node being read in the table.
    fn flush_node(&mut self)
        requires
            old(self).wf(),
        ensures
            final(self).wf(),
            final(self).current is None,
            final(self).log@ == flush(old(self).state()),
            forall|a: Addr|
                #[trigger] final(self).log.nodes@.contains_key(a) <==> (old(
                    self,
                ).log.nodes@.contains_key(a) || (old(self).current matches Some((c, _)) && c
                    == a)),
            final(self).log.atoms@ == old(self).log.atoms@,
            final(self).in_results == old(self).in_results,
            final(self).line_count == old(self).line_count,
    {
        let cur = self.current.take();
        match cur {
            Some((a, n)) => {
                self.log.nodes.insert(a, n);
                assert(self.log@.nodes =~= old(self).log@.nodes.insert(
                    a,
                    node_model(n, self.log.atoms@),
                ));
            },
            None => {},
        }
    }

    /// Interns `label`, keeping the views of what was read.
    fn intern(&mut self, label: &str) -> (r: Atom)
        requires
            old(self).wf(),
        ensures
            final(self).wf(),
            final(self).state() == old(self).state(),
            final(self).log.atoms@ == after_intern(old(self).log.atoms@, label@),
            r < final(self).log.atoms@.len(),
            final(self).log.atoms@[r as int] == label@,
            final(self).current == old(self).current,
            final(self).in_results == old(self).in_results,
            final(self).line_count == old(self).line_count,
            final(self).log.nodes@ == old(self).log.nodes@,
    {
        let ghost a1 = self.log.atoms@;
        let r = self.log.atomize_label(label);
        proof {
            assert(extends(a1, self.log.atoms@));
            let cur = self.current;
            match cur {
                Some((_, n)) => lemma_node_model_stable(n, a1, self.log.atoms@),
                None => {},
            }
        }
        r
    }

    /// The number of lines read.
    pub fn line_count(&self) -> (r: usize)
        ensures
            r == self.lines_read(),
    {
        self.line_count
    }

    /// Reads the next line of the log.
    pub fn add_line(&mut self, line: &str) -> (r: Result<(), LogError>)
        requires
            old(self).wf(),
            old(self).lines_read() < usize::MAX,
        ensures
            match line_step(old(self).state(), line@) {
                Ok(s) => r is Ok && final(self).wf() && final(self).state() == s
                    && final(self).lines_read() == old(self).lines_read() + 1,
                Err(k) => r matches Err(e) && e.kind == k && e.line_number == old(
                    self,
                ).lines_read() + 1 && e.text@ == line@ && final(self).wf() && final(self).state()
                    == old(self).state() && final(self).lines_read() == old(self).lines_read() + 1,
            },
    {
        self.line_count = self.line_count + 1;
        match parse_line(line) {
            None => Err(
                LogError {
                    line_number: self.line_count,
                    kind: LogErrorKind::Malformed,
                    text: line.to_owned(),
                },
            ),
            Some(p) => match self.add_record(p) {
                Ok(()) => Ok(()),
                Err(k) => Err(LogError { line_number: self.line_count, kind: k, text: line.to_owned() }),
            },
        }
    }

    /// Ends the log: the graph, where the separator has been read.
    pub fn finish(self) -> (r: Result<CCLog, LogError>)
        requires
            self.wf(),
        ensures
            self.state().in_results ==> (r matches Ok(log) && log.wf() && log@ == self.state().graph),
            !self.state().in_results ==> (r matches Err(e) && e.kind
                == LogErrorKind::MissingSeparator && e.line_number == self.lines_read() && e.text@
                == Seq::<char>::empty()),
    {
        if self.in_results {
            Ok(self.log)
        } else {
            Err(
                LogError {
                    line_number: self.line_count,
                    kind: LogErrorKind::MissingSeparator,
                    text: String::new(),
                },
            )
        }
    }

    /// Applies one parsed record.
    fn add_record(&mut self, rec: ParsedLine) -> (r: Result<(), LogErrorKind>)
        requires
            old(self).wf(),
        ensures
            match step(old(self).state(), rec@) {
                Ok(s) => r is Ok && final(self).wf() && final(self).state() == s,
                Err(k) => r == Err::<(), LogErrorKind>(k) && final(self).wf() && final(self).state()
                    == old(self).state(),
            },
            final(self).line_count == old(self).line_count,
    {
        match rec {
            ParsedLine::Comment => Ok(()),
            ParsedLine::Node(a, k, l) => {
                if self.in_results {
                    return Err(LogErrorKind::OutOfSection);
                }
                let dup_current = match &self.current {
                    Some((c, _)) => *c == a,
                    None => false,
                };
                if dup_current || self.log.nodes.contains_key(&a) {
                    return Err(LogErrorKind::DuplicateNode(a));
                }
                self.flush_node();
                let label = self.intern(l);
                let n = GraphNode::new(k, label);
                self.current = Some((a, n));
                assert(node_model(n, self.log.atoms@).edges =~= Seq::<(Addr, Seq<char>)>::empty());
                Ok(())
            },
            ParsedLine::Edge(a, l) => {
                if self.in_results {
                    return Err(LogErrorKind::OutOfSection);
                }
                if self.current.is_none() {
                    return Err(LogErrorKind::EdgeWithoutNode);
                }
                let label = self.intern(l);
                let cur = self.current.take();
                match cur {
                    Some((c, mut n)) => {
                        let ghost n0 = n;
                        n.edges.push(EdgeInfo::new(a, label));
                        assert(node_model(n, self.log.atoms@).edges =~= node_model(
                            n0,
                            self.log.atoms@,
                        ).edges.push((a, l@)));
                        self.current = Some((c, n));
                    },
                    None => {},
                }
                Ok(())
            },
            ParsedLine::WeakMap(w) => {
                if self.in_results {
                    return Err(LogErrorKind::OutOfSection);
                }
                self.log.weak_map_entries.push(w);
                Ok(())
            },
            ParsedLine::IncrRoot(a) => {
                if self.in_results {
                    return Err(LogErrorKind::OutOfSection);
                }
                self.log.incr_roots.insert(a);
                Ok(())
            },
            ParsedLine::Separator => {
                if self.in_results {
                    return Err(LogErrorKind::OutOfSection);
                }
                self.flush_node();
                self.in_results = true;
                Ok(())
            },
            ParsedLine::Garbage(a) => {
                if !self.in_results {
                    return Err(LogErrorKind::OutOfSection);
                }
                if self.log.garbage.contains(&a) {
                    return Err(LogErrorKind::DuplicateGarbage(a));
                }
                self.log.garbage.insert(a);
                Ok(())
            },
            ParsedLine::KnownEdge(a, n) => {
                if !self.in_results {
                    return Err(LogErrorKind::OutOfSection);
                }
                if self.log.known_edges.contains_key(&a) {
                    return Err(LogErrorKind::DuplicateKnownEdge(a));
                }
                self.log.known_edges.insert(a, n);
                Ok(())
            },
        }
    }
}

} // verus!
