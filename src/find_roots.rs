//! The search from the liveness roots: shortest chains of references to an
//! object, and why the root of such a chain is alive.
use std::collections::HashMap;
use vstd::prelude::*;
use vstd::std_specs::hash::group_hash_axioms;

use crate::cc_log::{Addr, CCLog, GraphModel, NodeType};

verus! {

broadcast use group_hash_axioms;

/// The node at `a` has an edge to `b`.
pub open spec fn has_edge(g: GraphModel, a: Addr, b: Addr) -> bool {
    g.nodes.contains_key(a) && exists|i: int|
        0 <= i < g.nodes[a].edges.len() && #[trigger] g.nodes[a].edges[i].0 == b
}

/// A liveness root: an address with a known-edge count, an incremental
/// root, or a node that the tracer marked.
pub open spec fn is_root(g: GraphModel, a: Addr) -> bool {
    ||| g.known_edges.contains_key(a)
    ||| g.incr_roots.contains(a)
    ||| (g.nodes.contains_key(a) && g.nodes[a].kind == NodeType::GC(true))
}

/// A chain of references that starts at a root.
pub open spec fn is_root_path(g: GraphModel, p: Seq<Addr>) -> bool {
    &&& p.len() > 0
    &&& is_root(g, p[0])
    &&& forall|i: int| 0 <= i < p.len() - 1 ==> #[trigger] has_edge(g, p[i], p[i + 1])
}

/// Some chain of references from a root leads to `a`.
pub open spec fn reachable(g: GraphModel, a: Addr) -> bool {
    exists|p: Seq<Addr>| #[trigger] is_root_path(g, p) && p.last() == a
}

proof fn lemma_push_keeps(s: Seq<Addr>, x: Addr)
    ensures
        forall|y: Addr| s.contains(y) ==> #[trigger] s.push(x).contains(y),
        s.push(x).contains(x),
{
    assert forall|y: Addr| s.contains(y) implies #[trigger] s.push(x).contains(y) by {
        let j = choose|j: int| 0 <= j < s.len() && s[j] == y;
        assert(s.push(x)[j] == y);
    }
    assert(s.push(x)[s.len() as int] == x);
}

/// A traced node that the tracer marked.
pub open spec fn is_marked(g: GraphModel, a: Addr) -> bool {
    g.nodes.contains_key(a) && g.nodes[a].kind == NodeType::GC(true)
}

/// The addresses with a known-edge count.
fn known_edge_addrs(log: &CCLog) -> (r: Vec<Addr>)
    ensures
        forall|a: Addr| r@.contains(a) <==> log@.known_edges.contains_key(a),
{
    let mut r: Vec<Addr> = Vec::new();
    for k in it: log.known_edges.keys()
        invariant
            forall|i: int| 0 <= i < r@.len() ==> #[trigger] log@.known_edges.contains_key(r@[i]),
            it.seq().unref().to_set() == log@.known_edges.dom(),
            forall|a: Addr| #[trigger]
                log@.known_edges.contains_key(a) ==> r@.contains(a) || exists|j: int|
                    it.index() <= j < it.seq().len() && *it.seq()[j] == a,
    {
        assert(it.seq().unref().to_set().contains(*k));
        let ghost before = r@;
        let ghost idx = it.index();
        r.push(*k);
        proof {
            lemma_push_keeps(before, *k);
            assert forall|a: Addr| #[trigger] log@.known_edges.contains_key(a) implies r@.contains(
                a,
            ) || exists|j: int| idx + 1 <= j < it.seq().len() && *it.seq()[j] == a by {
                if !before.contains(a) {
                    let j = choose|j: int| idx <= j < it.seq().len() && *it.seq()[j] == a;
                    if j == idx {
                        assert(r@.contains(a));
                    }
                }
            }
        }
    }
    r
}

/// The incremental roots.
fn incr_root_addrs(log: &CCLog) -> (r: Vec<Addr>)
    ensures
        forall|a: Addr| r@.contains(a) <==> log@.incr_roots.contains(a),
{
    let mut r: Vec<Addr> = Vec::new();
    for k in it: log.incr_roots.iter()
        invariant
            forall|i: int| 0 <= i < r@.len() ==> #[trigger] log@.incr_roots.contains(r@[i]),
            it.seq().unref().to_set() == log@.incr_roots,
            forall|a: Addr| #[trigger]
                log@.incr_roots.contains(a) ==> r@.contains(a) || exists|j: int|
                    it.index() <= j < it.seq().len() && *it.seq()[j] == a,
    {
        assert(it.seq().unref().to_set().contains(*k));
        let ghost before = r@;
        let ghost idx = it.index();
        r.push(*k);
        proof {
            lemma_push_keeps(before, *k);
            assert forall|a: Addr| #[trigger] log@.incr_roots.contains(a) implies r@.contains(a)
                || exists|j: int| idx + 1 <= j < it.seq().len() && *it.seq()[j] == a by {
                if !before.contains(a) {
                    let j = choose|j: int| idx <= j < it.seq().len() && *it.seq()[j] == a;
                    if j == idx {
                        assert(r@.contains(a));
                    }
                }
            }
        }
    }
    r
}

/// The traced nodes that the tracer marked.
fn marked_addrs(log: &CCLog) -> (r: Vec<Addr>)
    requires
        log.wf(),
    ensures
        forall|a: Addr| r@.contains(a) <==> is_marked(log@, a),
{
    let ghost g = log@;
    let mut r: Vec<Addr> = Vec::new();
    for k in it: log.nodes.keys()
        invariant
            g == log@,
            log.wf(),
            forall|i: int| 0 <= i < r@.len() ==> #[trigger] is_marked(g, r@[i]),
            it.seq().unref().to_set() == log.nodes@.dom(),
            forall|a: Addr| #[trigger]
                is_marked(g, a) ==> r@.contains(a) || exists|j: int|
                    it.index() <= j < it.seq().len() && *it.seq()[j] == a,
    {
        assert(it.seq().unref().to_set().contains(*k));
        let ghost before = r@;
        let ghost idx = it.index();
        let marked = match log.nodes.get(k) {
            Some(n) => {
                proof {
                    log.lemma_node_view(*k);
                }
                n.node_type == NodeType::GC(true)
            },
            None => false,
        };
        if marked {
            r.push(*k);
        }
        proof {
            lemma_push_keeps(before, *k);
            assert forall|a: Addr| #[trigger] is_marked(g, a) implies r@.contains(a) || exists|j: int|
                idx + 1 <= j < it.seq().len() && *it.seq()[j] == a by {
                if !before.contains(a) {
                    let j = choose|j: int| idx <= j < it.seq().len() && *it.seq()[j] == a;
                    if j == idx {
                        assert(r@.contains(a));
                    }
                }
            }
        }
    }
    r
}

/// `r` lists the addresses with a known-edge count before `i`, the
/// incremental roots from `i` to `j`, and the marked traced nodes after `j`.
pub open spec fn grouped_roots(g: GraphModel, r: Seq<Addr>, i: int, j: int) -> bool {
    &&& 0 <= i <= j <= r.len()
    &&& forall|a: Addr| #[trigger] r.subrange(0, i).contains(a) <==> g.known_edges.contains_key(a)
    &&& forall|a: Addr| #[trigger] r.subrange(i, j).contains(a) <==> g.incr_roots.contains(a)
    &&& forall|a: Addr| #[trigger] r.subrange(j, r.len() as int).contains(a) <==> is_marked(g, a)
}

/// The roots of `log`: first the addresses with a known-edge count, then the
/// incremental roots, then the marked traced nodes.
pub fn root_addrs(log: &CCLog) -> (r: Vec<Addr>)
    requires
        log.wf(),
    ensures
        forall|a: Addr| r@.contains(a) <==> is_root(log@, a),
        exists|i: int, j: int| #[trigger] grouped_roots(log@, r@, i, j),
{
    let mut r = known_edge_addrs(log);
    let mut incr = incr_root_addrs(log);
    let mut marked = marked_addrs(log);
    let ghost (k0, i0, m0) = (r@, incr@, marked@);
    r.append(&mut incr);
    r.append(&mut marked);
    proof {
        let i = k0.len() as int;
        let j = i + i0.len();
        assert(r@ =~= k0 + i0 + m0);
        assert(r@.subrange(0, i) =~= k0);
        assert(r@.subrange(i, j) =~= i0);
        assert(r@.subrange(j, r@.len() as int) =~= m0);
        assert(grouped_roots(log@, r@, i, j));
        assert forall|a: Addr| r@.contains(a) <==> is_root(log@, a) by {
            if r@.contains(a) {
                let x = choose|x: int| 0 <= x < r@.len() && r@[x] == a;
                if x < i {
                    assert(k0[x] == a);
                    assert(k0.contains(a));
                } else if x < j {
                    assert(i0[x - i] == a);
                    assert(i0.contains(a));
                } else {
                    assert(m0[x - j] == a);
                    assert(m0.contains(a));
                }
            }
            if is_root(log@, a) {
                if k0.contains(a) {
                    let x = choose|x: int| 0 <= x < k0.len() && k0[x] == a;
                    assert(r@[x] == a);
                } else if i0.contains(a) {
                    let x = choose|x: int| 0 <= x < i0.len() && i0[x] == a;
                    assert(r@[i + x] == a);
                } else {
                    assert(m0.contains(a));
                    let x = choose|x: int| 0 <= x < m0.len() && m0[x] == a;
                    assert(r@[j + x] == a);
                }
            }
        }
    }
    r
}

/// Each recorded predecessor is one edge and one step closer to a root; an
/// address without one is a root, at distance 0.
pub open spec fn tree_links(g: GraphModel, d: Map<Addr, (usize, Option<Addr>)>) -> bool {
    forall|a: Addr| #[trigger]
        d.contains_key(a) ==> match d[a].1 {
            None => is_root(g, a) && d[a].0 == 0,
            Some(p) => d.contains_key(p) && d[p].0 + 1 == d[a].0 && has_edge(g, p, a),
        }
}

/// `n` edges make the shortest chain of references from a root to `a`.
pub open spec fn shortest_distance(g: GraphModel, a: Addr, n: nat) -> bool {
    &&& exists|p: Seq<Addr>| #[trigger] is_root_path(g, p) && p.last() == a && p.len() == n + 1
    &&& forall|p: Seq<Addr>| #[trigger] is_root_path(g, p) && p.last() == a ==> n + 1 <= p.len()
}

/// What a search from the roots found: for each address reached, its
/// distance from the nearest root and the address it was reached from.
pub struct SearchTree {
    pub dist: HashMap<Addr, (usize, Option<Addr>)>,
}

/// Why a query failed.
#[derive(Clone, Copy, Debug, PartialEq, Eq, Structural)]
pub enum SearchError {
    /// The target is not a node of the graph.
    UnknownTarget(Addr),
    /// An address reached from a root is not a node of the graph.
    MissingNode(Addr),
    /// The root of the path is a traced node that the tracer did not mark.
    UnmarkedRoot(Addr),
    /// The root of the path is a ref-counted node with neither a known-edge
    /// count nor a place among the incremental roots.
    UnexplainedRoot(Addr),
}

/// Every edge of `x` leads to an address that was reached, at most one step
/// further than `x`.
pub open spec fn expanded(g: GraphModel, d: Map<Addr, (usize, Option<Addr>)>, x: Addr) -> bool {
    &&& g.nodes.contains_key(x)
    &&& forall|y: Addr| #[trigger]
        has_edge(g, x, y) ==> d.contains_key(y) && d[y].0 <= d[x].0 + 1
}

/// The breadth-first search with `q` its queue, of which the first `head`
/// entries have been expanded.
pub open spec fn bfs_inv(
    g: GraphModel,
    d: Map<Addr, (usize, Option<Addr>)>,
    q: Seq<Addr>,
    head: int,
) -> bool {
    &&& 0 <= head <= q.len()
    &&& q.no_duplicates()
    &&& forall|a: Addr| #[trigger] d.contains_key(a) <==> q.contains(a)
    &&& forall|i: int, j: int| 0 <= i <= j < q.len() ==> d[#[trigger] q[i]].0 <= d[#[trigger] q[j]].0
    &&& forall|j: int| head <= j < q.len() ==> d[#[trigger] q[j]].0 <= d[q[head]].0 + 1
    &&& forall|i: int| 0 <= i < q.len() ==> d[#[trigger] q[i]].0 <= i
    &&& tree_links(g, d)
    &&& forall|i: int| 0 <= i < head ==> expanded(g, d, #[trigger] q[i])
    &&& forall|a: Addr| #[trigger] is_root(g, a) ==> d.contains_key(a) && d[a].0 == 0
}

proof fn lemma_path_of(g: GraphModel, d: Map<Addr, (usize, Option<Addr>)>, a: Addr) -> (p: Seq<
    Addr,
>)
    requires
        tree_links(g, d),
        d.contains_key(a),
    ensures
        is_root_path(g, p),
        p.last() == a,
        p.len() == d[a].0 + 1,
    decreases d[a].0,
{
    match d[a].1 {
        None => {
            let p = seq![a];
            assert(p[0] == a);
            p
        },
        Some(b) => {
            let pb = lemma_path_of(g, d, b);
            let p = pb.push(a);
            assert forall|i: int| 0 <= i < p.len() - 1 implies #[trigger] has_edge(
                g,
                p[i],
                p[i + 1],
            ) by {
                if i < pb.len() - 1 {
                    assert(p[i] == pb[i] && p[i + 1] == pb[i + 1]);
                } else {
                    assert(p[i] == b && p[i + 1] == a);
                }
            }
            assert(p[0] == pb[0]);
            p
        },
    }
}

proof fn lemma_path_covered(
    g: GraphModel,
    d: Map<Addr, (usize, Option<Addr>)>,
    q: Seq<Addr>,
    p: Seq<Addr>,
    k: int,
)
    requires
        bfs_inv(g, d, q, q.len() as int),
        is_root_path(g, p),
        0 <= k < p.len(),
    ensures
        d.contains_key(p[k]),
        d[p[k]].0 <= k,
    decreases k,
{
    if k > 0 {
        lemma_path_covered(g, d, q, p, k - 1);
        assert(q.contains(p[k - 1]));
        let i = choose|i: int| 0 <= i < q.len() && q[i] == p[k - 1];
        assert(expanded(g, d, q[i]));
        let j = k - 1;
        assert(has_edge(g, p[j], p[j + 1]));
    }
}

#[verifier::rlimit(40)]
proof fn lemma_discover(
    g: GraphModel,
    d0: Map<Addr, (usize, Option<Addr>)>,
    q0: Seq<Addr>,
    head: int,
    x: Addr,
    y: Addr,
)
    requires
        bfs_inv(g, d0, q0, head),
        head < q0.len(),
        q0[head] == x,
        !d0.contains_key(y),
        has_edge(g, x, y),
        q0.len() <= usize::MAX,
    ensures
        d0[x].0 + 1 <= usize::MAX,
        bfs_inv(g, d0.insert(y, ((d0[x].0 + 1) as usize, Some(x))), q0.push(y), head),
{
    let dx = d0[x].0;
    let d = d0.insert(y, ((dx + 1) as usize, Some(x)));
    let q = q0.push(y);
    assert(q0.contains(x));
    assert(dx <= head);
    lemma_push_keeps(q0, y);
    assert(q.no_duplicates()) by {
        assert forall|i: int, j: int| 0 <= i < j < q.len() implies q[i] != q[j] by {
            if j == q0.len() {
                assert(q0.contains(q0[i]));
            } else {
                assert(q[i] == q0[i] && q[j] == q0[j]);
            }
        }
    }
    assert forall|b: Addr| #[trigger] d.contains_key(b) <==> q.contains(b) by {
        if q.contains(b) && b != y {
            let i = choose|i: int| 0 <= i < q.len() && q[i] == b;
            assert(q0[i] == b);
        }
    }
    assert forall|i: int| 0 <= i < q0.len() implies d0[#[trigger] q0[i]].0 <= dx + 1 by {
        if i < head {
            assert(d0[q0[i]].0 <= d0[q0[head]].0);
        }
    }
    assert forall|i: int, j: int| 0 <= i <= j < q.len() implies d[#[trigger] q[i]].0
        <= d[#[trigger] q[j]].0 by {
        if i < q0.len() {
            assert(q[i] == q0[i]);
            assert(q0.contains(q0[i]));
        }
        if j < q0.len() {
            assert(q[j] == q0[j]);
            assert(q0.contains(q0[j]));
        }
    }
    assert forall|i: int| 0 <= i < q.len() implies d[#[trigger] q[i]].0 <= i by {
        if i < q0.len() {
            assert(q[i] == q0[i]);
            assert(q0.contains(q0[i]));
        }
    }
    assert forall|i: int| head <= i < q.len() implies d[#[trigger] q[i]].0 <= d[q[head]].0 + 1 by {
        assert(q[head] == x);
        if i < q0.len() {
            assert(q[i] == q0[i]);
            assert(q0.contains(q0[i]));
        }
    }
    assert forall|i: int| 0 <= i < head implies expanded(g, d, #[trigger] q[i]) by {
        assert(q[i] == q0[i]);
        assert(expanded(g, d0, q0[i]));
        assert(q0.contains(q0[i]));
        assert forall|z: Addr| #[trigger] has_edge(g, q0[i], z) implies d.contains_key(z) && d[z].0
            <= d[q0[i]].0 + 1 by {
            assert(d0.contains_key(z));
        }
    }
    assert(tree_links(g, d));
}

/// An address already reached is at most one step further than the one being
/// expanded.
proof fn lemma_seen_close(
    g: GraphModel,
    d: Map<Addr, (usize, Option<Addr>)>,
    q: Seq<Addr>,
    head: int,
    y: Addr,
)
    requires
        bfs_inv(g, d, q, head),
        head < q.len(),
        d.contains_key(y),
    ensures
        d[y].0 <= d[q[head]].0 + 1,
{
    assert(q.contains(y));
    let i = choose|i: int| 0 <= i < q.len() && q[i] == y;
    if i < head {
        assert(d[q[i]].0 <= d[q[head]].0);
    }
}

/// When the queue is exhausted, the addresses reached are exactly those
/// reachable, each at its shortest distance, and all are nodes.
proof fn lemma_bfs_complete(g: GraphModel, d: Map<Addr, (usize, Option<Addr>)>, q: Seq<Addr>)
    requires
        bfs_inv(g, d, q, q.len() as int),
    ensures
        forall|a: Addr| #[trigger] d.contains_key(a) <==> reachable(g, a),
        forall|a: Addr| reachable(g, a) ==> #[trigger] g.nodes.contains_key(a),
        forall|a: Addr| #[trigger] d.contains_key(a) ==> shortest_distance(g, a, d[a].0 as nat),
{
    assert forall|a: Addr| #[trigger] d.contains_key(a) implies reachable(g, a) by {
        let p = lemma_path_of(g, d, a);
    }
    assert forall|p: Seq<Addr>| #[trigger] is_root_path(g, p) implies d.contains_key(p.last())
        && d[p.last()].0 + 1 <= p.len() by {
        lemma_path_covered(g, d, q, p, p.len() - 1);
    }
    assert forall|a: Addr| reachable(g, a) implies #[trigger] g.nodes.contains_key(a) by {
        let p = choose|p: Seq<Addr>| #[trigger] is_root_path(g, p) && p.last() == a;
        assert(d.contains_key(a));
        assert(q.contains(a));
        let i = choose|i: int| 0 <= i < q.len() && q[i] == a;
        assert(expanded(g, d, q[i]));
    }
    assert forall|a: Addr| #[trigger] d.contains_key(a) implies shortest_distance(
        g,
        a,
        d[a].0 as nat,
    ) by {
        let p = lemma_path_of(g, d, a);
    }
}

/// The queue of a search that has yet to expand anything: every root once,
/// at distance 0.
fn seed_queue(log: &CCLog) -> (r: (HashMap<Addr, (usize, Option<Addr>)>, Vec<Addr>))
    requires
        log.wf(),
    ensures
        bfs_inv(log@, r.0@, r.1@, 0),
{
    let ghost g = log@;
    let roots = root_addrs(log);
    let mut dist: HashMap<Addr, (usize, Option<Addr>)> = HashMap::new();
    let mut queue: Vec<Addr> = Vec::new();
    let mut j: usize = 0;
    while j < roots.len()
        invariant
            g == log@,
            forall|a: Addr| roots@.contains(a) <==> is_root(g, a),
            0 <= j <= roots@.len(),
            queue@.no_duplicates(),
            forall|a: Addr| #[trigger] dist@.contains_key(a) <==> queue@.contains(a),
            forall|a: Addr| #[trigger]
                dist@.contains_key(a) ==> dist@[a] == (0usize, None::<Addr>) && is_root(g, a),
            forall|k: int| 0 <= k < j ==> dist@.contains_key(#[trigger] roots@[k]),
        decreases roots@.len() - j,
    {
        let a = roots[j];
        assert(roots@.contains(a));
        if !dist.contains_key(&a) {
            let ghost q0 = queue@;
            dist.insert(a, (0, None));
            queue.push(a);
            proof {
                lemma_push_keeps(q0, a);
                assert forall|b: Addr| #[trigger] dist@.contains_key(b) <==> queue@.contains(b) by {
                    if queue@.contains(b) && b != a {
                        let i = choose|i: int| 0 <= i < queue@.len() && queue@[i] == b;
                        assert(q0[i] == b);
                    }
                }
            }
        }
        j = j + 1;
    }
    proof {
        assert forall|a: Addr| #[trigger] is_root(g, a) implies dist@.contains_key(a) && dist@[a].0
            == 0 by {
            assert(roots@.contains(a));
            let k = choose|k: int| 0 <= k < roots@.len() && roots@[k] == a;
        }
        assert forall|i: int, k: int| 0 <= i <= k < queue@.len() implies dist@[#[trigger] queue@[i]].0
            <= dist@[#[trigger] queue@[k]].0 by {
            assert(queue@.contains(queue@[i]));
            assert(queue@.contains(queue@[k]));
            assert(dist@.contains_key(queue@[i]));
            assert(dist@.contains_key(queue@[k]));
        }
        assert forall|i: int| 0 <= i < queue@.len() implies dist@[#[trigger] queue@[i]].0 == 0 by {
            assert(queue@.contains(queue@[i]));
            assert(dist@.contains_key(queue@[i]));
        }
        assert(tree_links(g, dist@));
    }
    (dist, queue)
}

/// Searches breadth-first from all roots at once: each address reachable
/// from a root gets its shortest distance from one, and the address it was
/// reached from. Fails where it reaches an address that is not a node.
#[verifier::rlimit(40)]
pub fn search_roots(log: &CCLog) -> (r: Result<SearchTree, SearchError>)
    requires
        log.wf(),
    ensures
        match r {
            Ok(t) => {
                &&& forall|a: Addr| #[trigger] t.dist@.contains_key(a) <==> reachable(log@, a)
                &&& forall|a: Addr| reachable(log@, a) ==> #[trigger] log@.nodes.contains_key(a)
                &&& forall|a: Addr| #[trigger]
                    t.dist@.contains_key(a) ==> shortest_distance(log@, a, t.dist@[a].0 as nat)
                &&& tree_links(log@, t.dist@)
            },
            Err(SearchError::MissingNode(a)) => reachable(log@, a) && !log@.nodes.contains_key(a),
            Err(_) => false,
        },
{
    let ghost g = log@;
    let (mut dist, mut queue) = seed_queue(log);
    let mut head: usize = 0;
    while head < queue.len()
        invariant
            g == log@,
            log.wf(),
            bfs_inv(g, dist@, queue@, head as int),
        decreases usize::MAX - head,
    {
        let x = queue[head];
        assert(queue@.contains(x));
        let node = match log.nodes.get(&x) {
            Some(n) => n,
            None => {
                proof {
                    let p = lemma_path_of(g, dist@, x);
                }
                return Err(SearchError::MissingNode(x));
            },
        };
        proof {
            log.lemma_node_view(x);
        }
        let dx = match dist.get(&x) {
            Some(e) => e.0,
            None => 0,
        };
        let mut k: usize = 0;
        while k < node.edges.len()
            invariant
                g == log@,
                log.wf(),
                log.nodes@.contains_key(x),
                *node == log.nodes@[x],
                g.nodes[x].edges.len() == node.edges@.len(),
                forall|m: int|
                    0 <= m < node.edges@.len() ==> #[trigger] g.nodes[x].edges[m].0
                        == node.edges@[m].addr,
                head < queue@.len(),
                queue@[head as int] == x,
                dist@.contains_key(x),
                dist@[x].0 == dx,
                bfs_inv(g, dist@, queue@, head as int),
                forall|m: int|
                    0 <= m < k ==> dist@.contains_key(#[trigger] node.edges@[m].addr) && dist@[node.edges@[m].addr].0 <= dx + 1,
            decreases node.edges@.len() - k,
        {
            let y = node.edges[k].addr;
            proof {
                assert(has_edge(g, x, y)) by {
                    assert(g.nodes[x].edges[k as int].0 == y);
                }
            }
            if !dist.contains_key(&y) {
                let ghost q0 = queue@;
                let ghost d0 = dist@;
                let n_queued = queue.len();
                proof {
                    lemma_discover(g, d0, q0, head as int, x, y);
                }
                assert(dx < n_queued);
                dist.insert(y, (dx + 1, Some(x)));
                queue.push(y);
            } else {
                proof {
                    lemma_seen_close(g, dist@, queue@, head as int, y);
                }
            }
            k = k + 1;
        }
        proof {
            assert forall|y: Addr| #[trigger] has_edge(g, x, y) implies dist@.contains_key(y)
                && dist@[y].0 <= dist@[x].0 + 1 by {
                let m = choose|m: int| 0 <= m < g.nodes[x].edges.len() && g.nodes[x].edges[m].0 == y;
                assert(node.edges@[m].addr == y);
            }
            assert(expanded(g, dist@, x));
            if head + 1 < queue@.len() {
                assert forall|i: int| head + 1 <= i < queue@.len() implies dist@[#[trigger] queue@[i]].0
                    <= dist@[queue@[head + 1]].0 + 1 by {
                    assert(dist@[queue@[head as int]].0 <= dist@[queue@[head + 1]].0);
                }
            }
        }
        head = head + 1;
    }
    proof {
        lemma_bfs_complete(g, dist@, queue@);
    }
    Ok(SearchTree { dist })
}

/// How the root of a path is kept alive.
#[derive(Clone, Copy, Debug, PartialEq, Eq, Structural)]
pub enum RootKind {
    /// A traced object that the tracer marked.
    Marked,
    /// A ref-counted object, with the number of its references that the
    /// known-edge count does not account for.
    RefCounted { unknown: i64 },
}

/// Why the root of a path is alive, and whether it was touched during an
/// incremental collection.
#[derive(Clone, Copy, Debug, PartialEq, Eq, Structural)]
pub struct RootExplanation {
    pub root: Addr,
    pub kind: RootKind,
    pub incremental: bool,
}

/// The explanation for the root `root`, or why it cannot be a root.
pub open spec fn explanation_of(g: GraphModel, root: Addr) -> Result<RootExplanation, SearchError> {
    let incremental = g.incr_roots.contains(root);
    if !g.nodes.contains_key(root) {
        Err(SearchError::MissingNode(root))
    } else {
        match g.nodes[root].kind {
            NodeType::GC(true) => Ok(RootExplanation { root, kind: RootKind::Marked, incremental }),
            NodeType::GC(false) => Err(SearchError::UnmarkedRoot(root)),
            NodeType::RefCounted(count) => if g.known_edges.contains_key(root) {
                Ok(
                    RootExplanation {
                        root,
                        kind: RootKind::RefCounted {
                            unknown: (count - g.known_edges[root]) as i64,
                        },
                        incremental,
                    },
                )
            } else if incremental {
                Ok(RootExplanation { root, kind: RootKind::RefCounted { unknown: 0 }, incremental })
            } else {
                Err(SearchError::UnexplainedRoot(root))
            },
        }
    }
}

/// Explains why `root` is alive: a marked traced object, or a ref-counted
/// one with as many unknown references as its count exceeds its known-edge
/// count (none where it is an incremental root without such a count).
pub fn explain_root(log: &CCLog, root: Addr) -> (r: Result<RootExplanation, SearchError>)
    requires
        log.wf(),
    ensures
        r == explanation_of(log@, root),
{
    let incremental = log.incr_roots.contains(&root);
    let node = match log.nodes.get(&root) {
        Some(n) => n,
        None => return Err(SearchError::MissingNode(root)),
    };
    proof {
        log.lemma_node_view(root);
    }
    match node.node_type {
        NodeType::GC(true) => Ok(RootExplanation { root, kind: RootKind::Marked, incremental }),
        NodeType::GC(false) => Err(SearchError::UnmarkedRoot(root)),
        NodeType::RefCounted(count) => match log.known_edges.get(&root) {
            Some(known) => Ok(
                RootExplanation {
                    root,
                    kind: RootKind::RefCounted { unknown: count as i64 - *known as i64 },
                    incremental,
                },
            ),
            None => if incremental {
                Ok(RootExplanation { root, kind: RootKind::RefCounted { unknown: 0 }, incremental })
            } else {
                Err(SearchError::UnexplainedRoot(root))
            },
        },
    }
}

/// `p` is a chain of references from a root to `target`, and none is shorter.
pub open spec fn is_shortest_root_path(g: GraphModel, p: Seq<Addr>, target: Addr) -> bool {
    &&& is_root_path(g, p)
    &&& p.last() == target
    &&& forall|q: Seq<Addr>| #[trigger] is_root_path(g, q) && q.last() == target ==> p.len() <= q.len()
}

/// The labels of the edges to `y` among `edges`, in order.
pub open spec fn labels_to(edges: Seq<(Addr, Seq<char>)>, y: Addr) -> Seq<Seq<char>>
    decreases edges.len(),
{
    if edges.len() == 0 {
        Seq::empty()
    } else {
        let rest = labels_to(edges.drop_last(), y);
        if edges.last().0 == y {
            rest.push(edges.last().1)
        } else {
            rest
        }
    }
}

/// The labels of all edges from `x` to `y`, in the order of the log.
pub fn edge_labels(log: &CCLog, x: Addr, y: Addr) -> (r: Vec<String>)
    requires
        log.wf(),
    ensures
        log@.nodes.contains_key(x) ==> r@.map_values(|l: String| l@) == labels_to(
            log@.nodes[x].edges,
            y,
        ),
        !log@.nodes.contains_key(x) ==> r@.len() == 0,
{
    let mut r: Vec<String> = Vec::new();
    let node = match log.nodes.get(&x) {
        Some(n) => n,
        None => return r,
    };
    proof {
        log.lemma_node_view(x);
    }
    let ghost edges = log@.nodes[x].edges;
    let mut k: usize = 0;
    while k < node.edges.len()
        invariant
            log.wf(),
            log.nodes@.contains_key(x),
            *node == log.nodes@[x],
            edges == log@.nodes[x].edges,
            edges.len() == node.edges@.len(),
            forall|m: int|
                0 <= m < node.edges@.len() ==> #[trigger] edges[m] == (
                    node.edges@[m].addr,
                    log.atoms()[node.edges@[m].label as int],
                ),
            forall|m: int| 0 <= m < node.edges@.len() ==> #[trigger] node.edges@[m].label < log.atoms().len(),
            0 <= k <= node.edges@.len(),
            r@.map_values(|l: String| l@) == labels_to(edges.subrange(0, k as int), y),
        decreases node.edges@.len() - k,
    {
        let e = node.edges[k];
        proof {
            assert(edges.subrange(0, k + 1).drop_last() =~= edges.subrange(0, k as int));
            assert(edges.subrange(0, k + 1).last() == edges[k as int]);
        }
        if e.addr == y {
            let ghost before = r@;
            r.push(log.atom_string(&e.label));
            assert(r@.map_values(|l: String| l@) =~= before.map_values(|l: String| l@).push(
                edges[k as int].1,
            ));
        }
        k = k + 1;
    }
    assert(edges.subrange(0, node.edges@.len() as int) =~= edges);
    r
}

/// The noun for a count of edges: singular for exactly one.
pub fn edge_noun(count: i64) -> (r: &'static str)
    ensures
        count == 1 ==> r@ == "edge"@,
        count != 1 ==> r@ == "edges"@,
{
    if count == 1 {
        "edge"
    } else {
        "edges"
    }
}

/// A shortest chain of references from a root to the queried object, and
/// why that root is alive.
#[derive(Debug)]
pub struct RootPath {
    pub path: Vec<Addr>,
    pub explanation: RootExplanation,
}

/// Walks back from `target` along the recorded predecessors to a root.
fn path_to(g: Ghost<GraphModel>, t: &SearchTree, target: Addr) -> (r: Vec<Addr>)
    requires
        tree_links(g@, t.dist@),
        t.dist@.contains_key(target),
    ensures
        is_root_path(g@, r@),
        r@.last() == target,
        r@.len() == t.dist@[target].0 + 1,
{
    let ghost d = t.dist@;
    let mut back: Vec<Addr> = Vec::new();
    let mut p = target;
    loop
        invariant_except_break
            d.contains_key(p),
            back@.len() + d[p].0 == d[target].0,
            back@.len() == 0 ==> p == target,
            back@.len() > 0 ==> back@[0] == target && has_edge(g@, p, back@.last()),
        invariant
            d == t.dist@,
            tree_links(g@, d),
            d.contains_key(target),
            forall|i: int| 0 <= i < back@.len() - 1 ==> #[trigger] has_edge(g@, back@[i + 1], back@[i]),
        ensures
            back@.len() == d[target].0 + 1,
            back@[0] == target,
            is_root(g@, back@.last()),
        decreases d[p].0,
    {
        let pred = match t.dist.get(&p) {
            Some(e) => e.1,
            None => None,
        };
        let ghost back0 = back@;
        back.push(p);
        proof {
            assert forall|i: int| 0 <= i < back@.len() - 1 implies #[trigger] has_edge(
                g@,
                back@[i + 1],
                back@[i],
            ) by {
                if i < back0.len() - 1 {
                    assert(back@[i] == back0[i] && back@[i + 1] == back0[i + 1]);
                } else {
                    assert(back@[i + 1] == p);
                    assert(back@[i] == back0.last());
                }
            }
        }
        match pred {
            None => break,
            Some(q) => {
                p = q;
            },
        }
    }
    let mut path: Vec<Addr> = Vec::new();
    let mut i: usize = back.len();
    while i > 0
        invariant
            0 <= i <= back@.len(),
            path@.len() == back@.len() - i,
            forall|j: int| 0 <= j < path@.len() ==> path@[j] == back@[back@.len() - 1 - j],
        decreases i,
    {
        i = i - 1;
        path.push(back[i]);
    }
    proof {
        let n = back@.len() as int;
        assert forall|j: int| 0 <= j < path@.len() - 1 implies #[trigger] has_edge(
            g@,
            path@[j],
            path@[j + 1],
        ) by {
            let k = n - 2 - j;
            assert(has_edge(g@, back@[k + 1], back@[k]));
        }
        assert(path@[0] == back@.last());
        assert(path@.last() == back@[0]);
    }
    path
}

/// Answers the query for `target`: a shortest chain of references from a
/// root to it, with why that root is alive, or `None` where no root reaches
/// it.
pub fn find_roots(log: &CCLog, target: Addr) -> (r: Result<Option<RootPath>, SearchError>)
    requires
        log.wf(),
    ensures
        !log@.nodes.contains_key(target) ==> (r matches Err(e) && e == SearchError::UnknownTarget(
            target,
        )),
        r matches Err(SearchError::UnknownTarget(a)) ==> a == target && !log@.nodes.contains_key(
            target,
        ),
        r matches Err(SearchError::MissingNode(a)) ==> reachable(log@, a)
            && !log@.nodes.contains_key(a),
        log@.nodes.contains_key(target) && !(r matches Err(SearchError::MissingNode(_))) ==> forall|
            a: Addr,
        | reachable(log@, a) ==> #[trigger] log@.nodes.contains_key(a),
        r matches Ok(None) ==> !reachable(log@, target),
        log@.nodes.contains_key(target) && !reachable(log@, target) && (forall|a: Addr|
            reachable(log@, a) ==> #[trigger] log@.nodes.contains_key(a)) ==> r matches Ok(None),
        r matches Ok(Some(rp)) ==> is_shortest_root_path(log@, rp.path@, target) && explanation_of(
            log@,
            rp.path@[0],
        ) == Ok::<RootExplanation, SearchError>(rp.explanation),
        r matches Err(SearchError::UnmarkedRoot(a)) ==> exists|p: Seq<Addr>|
            #[trigger] is_shortest_root_path(log@, p, target) && p[0] == a && explanation_of(log@, a)
                == Err::<RootExplanation, SearchError>(SearchError::UnmarkedRoot(a)),
        r matches Err(SearchError::UnexplainedRoot(a)) ==> exists|p: Seq<Addr>|
            #[trigger] is_shortest_root_path(log@, p, target) && p[0] == a && explanation_of(log@, a)
                == Err::<RootExplanation, SearchError>(SearchError::UnexplainedRoot(a)),
{
    if !log.nodes.contains_key(&target) {
        return Err(SearchError::UnknownTarget(target));
    }
    let t = match search_roots(log) {
        Ok(t) => t,
        Err(e) => return Err(e),
    };
    if !t.dist.contains_key(&target) {
        return Ok(None);
    }
    let path = path_to(Ghost(log@), &t, target);
    proof {
        assert(shortest_distance(log@, target, t.dist@[target].0 as nat));
        let first = seq![path@[0]];
        assert(first.last() == path@[0]);
        assert(is_root_path(log@, first));
        assert(reachable(log@, path@[0]));
        assert(is_shortest_root_path(log@, path@, target));
    }
    match explain_root(log, path[0]) {
        Ok(explanation) => Ok(Some(RootPath { path, explanation })),
        Err(e) => Err(e),
    }
}

} // verus!
