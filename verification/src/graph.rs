//! The table dependency graph.
//!
//! Nodes are table names; a directed edge `a -> b` means the rows of `a`
//! require the rows of `b` (a child table depends on its parent), except
//! that a declared many-to-many join table hangs off its primary side.
//! The graph structure is held in a petgraph directed graph; the
//! post-order traversal that yields the dependency order is verified
//! here against the graph's edge relation.

use vstd::prelude::*;

use crate::config::{m2m_models, M2MModel, M2MTable};
use crate::sql::{rel_models, RelModel, Relationship};
use crate::text::{index_of_str, str_eq};

verus! {

/// The graph store: a petgraph directed graph with `usize` indices and
/// no node or edge weights (table names are kept alongside).
pub type TableGraph = petgraph::graph::Graph<(), (), petgraph::Directed, usize>;

#[verifier::external_type_specification]
#[verifier::external_body]
#[verifier::reject_recursive_types(N)]
#[verifier::reject_recursive_types(E)]
#[verifier::reject_recursive_types(Ty)]
#[verifier::reject_recursive_types(Ix)]
pub struct ExGraph<N, E, Ty, Ix>(petgraph::graph::Graph<N, E, Ty, Ix>);

#[verifier::external_type_specification]
#[verifier::external_body]
pub struct ExDirected(petgraph::Directed);

/// The number of nodes held by a graph value.
pub uninterp spec fn graph_order(g: TableGraph) -> int;

/// The directed edges held by a graph value, as pairs of node indices.
pub uninterp spec fn graph_edge_set(g: TableGraph) -> Set<(usize, usize)>;

/// Relies on petgraph's `Graph::with_capacity`: a fresh graph holds no
/// nodes and no edges.
#[verifier::external_body]
fn graph_new() -> (g: TableGraph)
    ensures
        graph_order(g) == 0,
        graph_edge_set(g) == Set::<(usize, usize)>::empty(),
{
    petgraph::graph::Graph::with_capacity(0, 0)
}

/// Relies on petgraph's `Graph::add_node`: appends one node whose index
/// is the previous node count and leaves the edges untouched; with a
/// `usize` index type the node-count limit does not apply.
#[verifier::external_body]
fn graph_add_node(g: &mut TableGraph) -> (idx: usize)
    ensures
        graph_order(*final(g)) == graph_order(*old(g)) + 1,
        idx as int == graph_order(*old(g)),
        graph_edge_set(*final(g)) == graph_edge_set(*old(g)),
{
    g.add_node(()).index()
}

/// Relies on petgraph's `Graph::add_edge`: records one directed edge
/// between existing nodes and leaves the nodes untouched; in-bounds
/// endpoints cannot panic, and with a `usize` index type the edge-count
/// limit does not apply.
#[verifier::external_body]
fn graph_add_edge(g: &mut TableGraph, a: usize, b: usize)
    requires
        (a as int) < graph_order(*old(g)),
        (b as int) < graph_order(*old(g)),
    ensures
        graph_order(*final(g)) == graph_order(*old(g)),
        graph_edge_set(*final(g)) == graph_edge_set(*old(g)).insert((a, b)),
{
    g.add_edge(petgraph::graph::NodeIndex::new(a), petgraph::graph::NodeIndex::new(b), ());
}

/// Relies on petgraph's `Graph::neighbors`: iterates exactly the targets
/// of the edges leaving `a`, each a node of the graph; a node without
/// outgoing edges yields nothing.
#[verifier::external_body]
fn graph_neighbors(g: &TableGraph, a: usize) -> (ns: Vec<usize>)
    ensures
        forall|k: int|
            0 <= k < ns@.len() ==> graph_edge_set(*g).contains((a, #[trigger] ns@[k])) && (
            ns@[k] as int) < graph_order(*g),
        forall|b: usize| graph_edge_set(*g).contains((a, b)) ==> ns@.contains(b),
{
    g.neighbors(petgraph::graph::NodeIndex::new(a)).map(|n| n.index()).collect()
}

/// A walk through the edge relation: at least one node, each consecutive
/// pair an edge.
pub open spec fn is_path(es: Set<(usize, usize)>, p: Seq<usize>) -> bool {
    p.len() >= 1 && forall|k: int| 0 <= k < p.len() - 1 ==> es.contains(((#[trigger] p[k]), p[k + 1]))
}

/// Node `b` is reachable from node `a` (in zero or more steps).
pub open spec fn reaches(es: Set<(usize, usize)>, a: usize, b: usize) -> bool {
    exists|p: Seq<usize>| #[trigger] is_path(es, p) && p.first() == a && p.last() == b
}

/// Every edge endpoint lies below `n`.
pub open spec fn valid_edges(es: Set<(usize, usize)>, n: int) -> bool {
    forall|e: (usize, usize)| #[trigger] es.contains(e) ==> (e.0 as int) < n && (e.1 as int) < n
}

/// No walk of at least one step returns to its starting node.
pub open spec fn acyclic(es: Set<(usize, usize)>) -> bool {
    forall|p: Seq<usize>|
        #[trigger] is_path(es, p) && p.len() >= 2 ==> p.first() != p.last()
}

/// Each node of a sequence has every out-neighbor standing strictly
/// earlier in the sequence.
pub open spec fn locally_ordered(es: Set<(usize, usize)>, out: Seq<usize>) -> bool {
    forall|k: int, u: usize|
        #![trigger es.contains((out[k], u))]
        0 <= k < out.len() && es.contains((out[k], u)) ==> exists|k2: int|
            0 <= k2 < k && out[k2] == u
}

/// Following a path from a node of a locally ordered sequence only
/// moves to strictly earlier positions.
proof fn lemma_ordered_path(es: Set<(usize, usize)>, out: Seq<usize>, p: Seq<usize>, k: int)
    requires
        locally_ordered(es, out),
        is_path(es, p),
        0 <= k < out.len(),
        out[k] == p.first(),
    ensures
        exists|k2: int|
            0 <= k2 <= k && #[trigger] out[k2] == p.last() && (p.len() >= 2 ==> k2 < k),
    decreases p.len(),
{
    if p.len() >= 2 {
        assert(es.contains((p[0], p[1])));
        assert(es.contains((out[k], p[1])));
        let k1 = choose|k1: int| 0 <= k1 < k && out[k1] == p[1];
        let q = p.drop_first();
        assert(is_path(es, q));
        assert(q.first() == p[1] && q.last() == p.last());
        lemma_ordered_path(es, out, q, k1);
        let k2 = choose|k2: int|
            0 <= k2 <= k1 && #[trigger] out[k2] == q.last() && (q.len() >= 2 ==> k2 < k1);
        assert(0 <= k2 < k && out[k2] == p.last());
    }
}

/// Every node reaches itself.
proof fn lemma_reaches_self(es: Set<(usize, usize)>, a: usize)
    ensures
        reaches(es, a, a),
{
    let p = seq![a];
    assert(is_path(es, p));
    assert(p.first() == a && p.last() == a);
}

/// Reachability extends along one edge.
proof fn lemma_reaches_step(es: Set<(usize, usize)>, a: usize, b: usize, c: usize)
    requires
        reaches(es, a, b),
        es.contains((b, c)),
    ensures
        reaches(es, a, c),
{
    let p = choose|p: Seq<usize>| #[trigger] is_path(es, p) && p.first() == a && p.last() == b;
    let q = p.push(c);
    assert forall|k: int| 0 <= k < q.len() - 1 implies es.contains(((#[trigger] q[k]), q[k + 1])) by {
        if k < p.len() - 1 {
            assert(q[k] == p[k] && q[k + 1] == p[k + 1]);
        } else {
            assert(q[k] == p.last() && q[k + 1] == c);
        }
    }
    assert(is_path(es, q));
    assert(q.first() == a && q.last() == c);
}

/// A set of nodes that contains a path's first node and is closed under
/// the edge relation contains the path's last node.
proof fn lemma_closed_contains(es: Set<(usize, usize)>, s: Seq<usize>, p: Seq<usize>)
    requires
        is_path(es, p),
        s.contains(p.first()),
        forall|a: usize, b: usize|
            #![trigger s.contains(a), es.contains((a, b))]
            s.contains(a) && es.contains((a, b)) ==> s.contains(b),
    ensures
        s.contains(p.last()),
    decreases p.len(),
{
    if p.len() > 1 {
        let q = p.drop_last();
        assert(is_path(es, q));
        lemma_closed_contains(es, s, q);
        assert(es.contains((p[p.len() - 2], p[p.len() - 1])));
        assert(q.last() == p[p.len() - 2]);
        assert(s.contains(p.last()));
    }
}

/// How many entries of a boolean sequence are set.
spec fn count_true(s: Seq<bool>) -> int
    decreases s.len(),
{
    if s.len() == 0 {
        0
    } else {
        count_true(s.drop_last()) + if s.last() {
            1int
        } else {
            0int
        }
    }
}

proof fn lemma_count_true_bounds(s: Seq<bool>)
    ensures
        0 <= count_true(s) <= s.len(),
    decreases s.len(),
{
    if s.len() > 0 {
        lemma_count_true_bounds(s.drop_last());
    }
}

/// Setting entries only ever raises the count; a witness entry that goes
/// from unset to set raises it strictly.
proof fn lemma_count_true_strict(a: Seq<bool>, b: Seq<bool>, w: int)
    requires
        a.len() == b.len(),
        forall|i: int| 0 <= i < a.len() && a[i] ==> b[i],
        0 <= w < a.len(),
        !a[w],
        b[w],
    ensures
        count_true(a) < count_true(b),
    decreases a.len(),
{
    let a1 = a.drop_last();
    let b1 = b.drop_last();
    assert(forall|i: int| 0 <= i < a1.len() && a1[i] ==> b1[i]);
    if w == a.len() - 1 {
        lemma_count_true_mono(a1, b1);
    } else {
        lemma_count_true_strict(a1, b1, w);
    }
}

proof fn lemma_count_true_mono(a: Seq<bool>, b: Seq<bool>)
    requires
        a.len() == b.len(),
        forall|i: int| 0 <= i < a.len() && a[i] ==> b[i],
    ensures
        count_true(a) <= count_true(b),
    decreases a.len(),
{
    if a.len() > 0 {
        let a1 = a.drop_last();
        let b1 = b.drop_last();
        assert(forall|i: int| 0 <= i < a1.len() && a1[i] ==> b1[i]);
        lemma_count_true_mono(a1, b1);
    }
}

/// A relationship or the configured target named a table that is not
/// among the known tables.
#[derive(Debug)]
pub struct UnknownTableError {
    pub table: String,
}

/// No two table names are the same.
pub open spec fn distinct_names(names: Seq<Seq<char>>) -> bool {
    forall|i: int, j: int| 0 <= i < j < names.len() ==> names[i] != names[j]
}

/// The node index carrying name `n`.
pub open spec fn name_index(names: Seq<Seq<char>>, n: Seq<char>) -> int {
    choose|i: int| 0 <= i < names.len() && names[i] == n
}

/// For distinct names, the index of a present name is its unique
/// position.
proof fn lemma_name_index_unique(names: Seq<Seq<char>>, n: Seq<char>, i: int)
    requires
        distinct_names(names),
        0 <= i < names.len(),
        names[i] == n,
    ensures
        name_index(names, n) == i,
{
    let j = name_index(names, n);
    assert(0 <= j < names.len() && names[j] == n);
}

/// The views of an edge list over table names.
pub open spec fn edge_views(es: Seq<(String, String)>) -> Seq<(Seq<char>, Seq<char>)> {
    es.map_values(|e: (String, String)| (e.0@, e.1@))
}

/// The edge relation named by an edge list: one index pair per edge,
/// resolved against the table-name list.
pub open spec fn spec_edge_set(
    names: Seq<Seq<char>>,
    es: Seq<(Seq<char>, Seq<char>)>,
) -> Set<(usize, usize)>
    decreases es.len(),
{
    if es.len() == 0 {
        Set::empty()
    } else {
        spec_edge_set(names, es.drop_last()).insert(
            (
                name_index(names, es.last().0) as usize,
                name_index(names, es.last().1) as usize,
            ),
        )
    }
}

fn clone_names(v: &Vec<String>) -> (r: Vec<String>)
    ensures
        r.deep_view() == v.deep_view(),
{
    let mut r: Vec<String> = Vec::new();
    let mut i: usize = 0;
    while i < v.len()
        invariant
            i <= v@.len(),
            r@.len() == i,
            r.deep_view() =~= v.deep_view().take(i as int),
        decreases v@.len() - i,
    {
        let s = v[i].clone();
        proof {
            assert(s == v@[i as int]);
        }
        r.push(s);
        proof {
            assert(r.deep_view().len() == r@.len());
            assert forall|j: int| 0 <= j <= i implies r.deep_view()[j] == r@[j]@ by {
                assert(r.deep_view()[j] == r@[j].deep_view());
            }
            assert(r.deep_view() =~= v.deep_view().take(i + 1));
        }
        i += 1;
    }
    proof {
        assert(v.deep_view().take(v@.len() as int) =~= v.deep_view());
    }
    r
}

/// The dependency graph over the known tables.
pub struct DepGraph {
    graph: TableGraph,
    names: Vec<String>,
}

impl DepGraph {
    /// The number of tables (graph nodes).
    pub closed spec fn order(self) -> int {
        graph_order(self.graph)
    }

    /// The table name carried by each node index.
    pub closed spec fn node_names(self) -> Seq<Seq<char>> {
        self.names.deep_view()
    }

    /// The edge relation, over node indices.
    pub closed spec fn edges(self) -> Set<(usize, usize)> {
        graph_edge_set(self.graph)
    }

    /// A well-formed graph: one name per node, names distinct, every
    /// edge between existing nodes.
    pub open spec fn wf(self) -> bool {
        &&& self.node_names().len() == self.order()
        &&& self.order() <= usize::MAX
        &&& valid_edges(self.edges(), self.order())
        &&& distinct_names(self.node_names())
    }

    /// Builds the graph: one node per known table, one edge per entry of
    /// `edges` (both endpoints resolved by name). Fails with the first
    /// edge endpoint that is not a known table.
    pub fn new(tables: &Vec<String>, edges: &Vec<(String, String)>) -> (r: Result<
        DepGraph,
        UnknownTableError,
    >)
        requires
            distinct_names(tables.deep_view()),
        ensures
            match r {
                Ok(d) => {
                    &&& d.wf()
                    &&& d.node_names() == tables.deep_view()
                    &&& d.order() == tables.deep_view().len()
                    &&& d.edges() == spec_edge_set(tables.deep_view(), edge_views(edges@))
                    &&& forall|k: int|
                        0 <= k < edges@.len() ==> tables.deep_view().contains(
                            (#[trigger] edge_views(edges@)[k]).0,
                        ) && tables.deep_view().contains(edge_views(edges@)[k].1)
                },
                Err(e) => {
                    &&& !tables.deep_view().contains(e.table@)
                    &&& exists|k: int|
                        0 <= k < edges@.len() && ((#[trigger] edge_views(edges@)[k]).0 == e.table@
                            || edge_views(edges@)[k].1 == e.table@)
                },
            },
    {
        let ghost names = tables.deep_view();
        let mut g = graph_new();
        let n = tables.len();
        let mut i: usize = 0;
        while i < n
            invariant
                n == tables@.len(),
                i <= n,
                graph_order(g) == i,
                graph_edge_set(g) == Set::<(usize, usize)>::empty(),
            decreases n - i,
        {
            let _ = graph_add_node(&mut g);
            i += 1;
        }
        let mut k: usize = 0;
        while k < edges.len()
            invariant
                n == tables@.len(),
                distinct_names(names),
                names == tables.deep_view(),
                k <= edges@.len(),
                graph_order(g) == n,
                valid_edges(graph_edge_set(g), n as int),
                graph_edge_set(g) == spec_edge_set(names, edge_views(edges@).take(k as int)),
                forall|j: int|
                    0 <= j < k ==> names.contains((#[trigger] edge_views(edges@)[j]).0)
                        && names.contains(edge_views(edges@)[j].1),
            decreases edges@.len() - k,
        {
            let ghost prev = edge_views(edges@).take(k as int);
            proof {
                assert(edge_views(edges@)[k as int] == (edges@[k as int].0@, edges@[k as int].1@));
            }
            let ia = match index_of_str(tables, edges[k].0.as_str()) {
                Some(i) => i,
                None => {
                    return Err(UnknownTableError { table: edges[k].0.clone() });
                },
            };
            let ib = match index_of_str(tables, edges[k].1.as_str()) {
                Some(i) => i,
                None => {
                    return Err(UnknownTableError { table: edges[k].1.clone() });
                },
            };
            proof {
                lemma_name_index_unique(names, edges@[k as int].0@, ia as int);
                lemma_name_index_unique(names, edges@[k as int].1@, ib as int);
                assert(edge_views(edges@).take(k + 1).drop_last() =~= prev);
                assert(edge_views(edges@).take(k + 1).last() == edge_views(edges@)[k as int]);
                assert(names.contains(edge_views(edges@)[k as int].0));
                assert(names.contains(edge_views(edges@)[k as int].1));
            }
            graph_add_edge(&mut g, ia, ib);
            k += 1;
        }
        proof {
            assert(edge_views(edges@).take(edges@.len() as int) =~= edge_views(edges@));
        }
        let names_copy = clone_names(tables);
        Ok(DepGraph { graph: g, names: names_copy })
    }
}

/// The bookkeeping carried by the traversal: `visited` marks exactly the
/// nodes already output or still on the recursion path (`grey`), the
/// output holds distinct existing nodes, and every node already output
/// has all of its successors visited.
spec fn inv_marks(
    es: Set<(usize, usize)>,
    order: int,
    visited: Seq<bool>,
    out: Seq<usize>,
    grey: Set<usize>,
) -> bool {
    &&& visited.len() == order
    &&& (forall|j: usize|
        #![trigger visited[j as int]]
        #![trigger out.contains(j)]
        #![trigger grey.contains(j)]
        (j as int) < order ==> (visited[j as int] <==> (out.contains(j) || grey.contains(j))))
    &&& (forall|k: int| 0 <= k < out.len() ==> ((#[trigger] out[k]) as int) < order)
    &&& (forall|k1: int, k2: int| 0 <= k1 < k2 < out.len() ==> out[k1] != out[k2])
    &&& (forall|a: usize, b: usize|
        #![trigger out.contains(a), es.contains((a, b))]
        out.contains(a) && es.contains((a, b)) ==> visited[b as int])
}

/// Every visited node is reachable from the traversal root.
spec fn all_reachable(
    es: Set<(usize, usize)>,
    order: int,
    visited: Seq<bool>,
    root: usize,
) -> bool {
    forall|j: usize|
        #![trigger visited[j as int]]
        #![trigger reaches(es, root, j)]
        (j as int) < order && visited[j as int] ==> reaches(es, root, j)
}

/// Depth-first traversal from `n`: visits every yet-unvisited node
/// reachable from `n` and appends it to `out` in post-order, `n` last.
#[verifier::loop_isolation(false)]
#[verifier::rlimit(100)]
fn dfs(
    g: &TableGraph,
    n: usize,
    visited: &mut Vec<bool>,
    out: &mut Vec<usize>,
    Ghost(root): Ghost<usize>,
    Ghost(grey): Ghost<Set<usize>>,
)
    requires
        valid_edges(graph_edge_set(*g), graph_order(*g)),
        graph_order(*g) <= usize::MAX,
        (n as int) < graph_order(*g),
        !old(visited)@[n as int],
        inv_marks(graph_edge_set(*g), graph_order(*g), old(visited)@, old(out)@, grey),
        reaches(graph_edge_set(*g), root, n),
        all_reachable(graph_edge_set(*g), graph_order(*g), old(visited)@, root),
        forall|h: usize| grey.contains(h) ==> reaches(graph_edge_set(*g), h, n),
        acyclic(graph_edge_set(*g)) ==> locally_ordered(graph_edge_set(*g), old(out)@),
    ensures
        final(visited)@.len() == old(visited)@.len(),
        forall|j: int| 0 <= j < old(visited)@.len() && old(visited)@[j] ==> final(visited)@[j],
        final(visited)@[n as int],
        final(out)@.len() > old(out)@.len(),
        forall|k: int| 0 <= k < old(out)@.len() ==> final(out)@[k] == old(out)@[k],
        final(out)@.last() == n,
        forall|j: usize|
            final(out)@.contains(j) && !old(out)@.contains(j) ==> !old(visited)@[j as int],
        inv_marks(graph_edge_set(*g), graph_order(*g), final(visited)@, final(out)@, grey),
        all_reachable(graph_edge_set(*g), graph_order(*g), final(visited)@, root),
        acyclic(graph_edge_set(*g)) ==> locally_ordered(graph_edge_set(*g), final(out)@),
    decreases graph_order(*g) - count_true(old(visited)@),
{
    let ghost es = graph_edge_set(*g);
    let ghost order = graph_order(*g);
    let ghost v0 = old(visited)@;
    let ghost out0 = old(out)@;
    proof {
        assert(!out0.contains(n) && !grey.contains(n));
    }
    visited[n] = true;
    let ghost v1 = visited@;
    let ghost grey2 = grey.insert(n);
    proof {
        assert(v1 == v0.update(n as int, true));
        assert forall|j: usize| (j as int) < order implies (v1[j as int] <==> (out0.contains(j)
            || grey2.contains(j))) by {
            if j != n {
                assert(v1[j as int] == v0[j as int]);
            }
        }
        assert(inv_marks(es, order, v1, out0, grey2));
        assert forall|j: usize| (j as int) < order && v1[j as int] implies reaches(es, root, j) by {
            if j != n {
                assert(v0[j as int]);
            }
        }
        assert(all_reachable(es, order, v1, root));
    }
    let ns = graph_neighbors(g, n);
    let mut k: usize = 0;
    while k < ns.len()
        invariant
            k <= ns@.len(),
            visited@.len() == order,
            visited@[n as int],
            forall|j: int| 0 <= j < order && v1[j] ==> visited@[j],
            out@.len() >= out0.len(),
            forall|t: int| 0 <= t < out0.len() ==> out@[t] == out0[t],
            !out@.contains(n),
            forall|j: usize| out@.contains(j) && !out0.contains(j) ==> !v1[j as int],
            inv_marks(es, order, visited@, out@, grey2),
            all_reachable(es, order, visited@, root),
            forall|t: int| 0 <= t < k ==> visited@[(#[trigger] ns@[t]) as int],
            acyclic(es) ==> locally_ordered(es, out@),
        decreases ns@.len() - k,
    {
        let m = ns[k];
        assert(es.contains((n, m)) && (m as int) < order);
        if !visited[m] {
            proof {
                lemma_reaches_step(es, root, n, m);
                lemma_count_true_bounds(visited@);
                lemma_count_true_strict(v0, visited@, n as int);
                assert forall|h: usize| grey2.contains(h) implies reaches(es, h, m) by {
                    if h == n {
                        lemma_reaches_self(es, n);
                    }
                    lemma_reaches_step(es, h, n, m);
                }
            }
            let ghost v_pre = visited@;
            let ghost out_pre = out@;
            dfs(g, m, visited, out, Ghost(root), Ghost(grey2));
            proof {
                assert forall|j: usize| out@.contains(j) && !out0.contains(j) implies !v1[j as int] by {
                    if out_pre.contains(j) {
                    } else {
                        assert(!v_pre[j as int]);
                    }
                }
                assert(!out@.contains(n)) by {
                    if out@.contains(n) && !out_pre.contains(n) {
                        assert(!v_pre[n as int]);
                    }
                }
            }
        }
        k += 1;
    }
    proof {
        assert forall|b: usize| es.contains((n, b)) implies visited@[b as int] by {
            assert(ns@.contains(b));
            let t = choose|t: int| 0 <= t < ns@.len() && ns@[t] == b;
            assert(visited@[(ns@[t]) as int]);
        }
    }
    let ghost out_pre = out@;
    let ghost v_fin = visited@;
    out.push(n);
    proof {
        broadcast use vstd::seq_lib::lemma_seq_contains_after_push;

        assert(out@ == out_pre.push(n));
        assert(out@.last() == n);
        assert forall|j: usize| (j as int) < order implies (v_fin[j as int] <==> (out@.contains(j)
            || grey.contains(j))) by {
            assert(out@.contains(j) <==> out_pre.contains(j) || j == n);
            if j == n {
            } else {
                assert(grey2.contains(j) <==> grey.contains(j));
            }
        }
        assert forall|k1: int, k2: int| 0 <= k1 < k2 < out@.len() implies out@[k1] != out@[k2] by {
            if k2 == out@.len() - 1 {
                assert(out@[k1] == out_pre[k1]);
                assert(out_pre.contains(out_pre[k1]));
            }
        }
        assert forall|a: usize, b: usize|
            out@.contains(a) && es.contains((a, b)) implies v_fin[b as int] by {
            assert(out@.contains(a) <==> out_pre.contains(a) || a == n);
        }
        assert(inv_marks(es, order, v_fin, out@, grey));
        assert forall|j: usize|
            out@.contains(j) && !out0.contains(j) implies !v0[j as int] by {
            assert(out@.contains(j) <==> out_pre.contains(j) || j == n);
            if j == n {
            } else {
                assert(!v1[j as int]);
                assert(v1[j as int] == v0[j as int] || j == n);
            }
        }
        if acyclic(es) {
            lemma_push_stays_ordered(es, order, out_pre, n, grey, v_fin);
        }
    }
}

/// Appending a node whose successors are all visited keeps the output
/// locally ordered: in an acyclic graph a successor can be neither the
/// node itself nor one of the ancestors still on the recursion path, so
/// it already stands in the output.
proof fn lemma_push_stays_ordered(
    es: Set<(usize, usize)>,
    order: int,
    out_pre: Seq<usize>,
    n: usize,
    grey: Set<usize>,
    v_fin: Seq<bool>,
)
    requires
        acyclic(es),
        valid_edges(es, order),
        locally_ordered(es, out_pre),
        inv_marks(es, order, v_fin, out_pre, grey.insert(n)),
        !out_pre.contains(n),
        forall|h: usize| grey.contains(h) ==> reaches(es, h, n),
        forall|b: usize| es.contains((n, b)) ==> v_fin[b as int],
    ensures
        locally_ordered(es, out_pre.push(n)),
{
    let out = out_pre.push(n);
    let grey2 = grey.insert(n);
    assert forall|k: int, u: usize|
        0 <= k < out.len() && es.contains((out[k], u)) implies exists|k2: int|
        0 <= k2 < k && out[k2] == u by {
        if k < out.len() - 1 {
            assert(out[k] == out_pre[k]);
            assert(es.contains((out_pre[k], u)));
            let k2 = choose|k2: int| 0 <= k2 < k && out_pre[k2] == u;
            assert(out[k2] == u);
        } else {
            assert(out[k] == n);
            assert(v_fin[u as int]);
            assert((u as int) < order);
            assert(out_pre.contains(u) || grey2.contains(u));
            if out_pre.contains(u) {
                let k2 = choose|k2: int| 0 <= k2 < out_pre.len() && out_pre[k2] == u;
                assert(out[k2] == u);
            } else if u == n {
                let p = seq![n, n];
                assert(is_path(es, p));
                assert(p.first() == p.last() && p.len() >= 2);
                assert(false);
            } else {
                assert(grey.contains(u));
                assert(reaches(es, u, n));
                let p = choose|p: Seq<usize>| #[trigger]
                    is_path(es, p) && p.first() == u && p.last() == n;
                let q = seq![n] + p;
                assert forall|t: int| 0 <= t < q.len() - 1 implies es.contains(
                    ((#[trigger] q[t]), q[t + 1]),
                ) by {
                    if t == 0 {
                        assert(q[0] == n && q[1] == p[0]);
                    } else {
                        assert(q[t] == p[t - 1] && q[t + 1] == p[t]);
                    }
                }
                assert(is_path(es, q));
                assert(q.first() == n && q.last() == n && q.len() >= 2);
                assert(false);
            }
        }
    }
}

/// The post-order traversal from `root`: the distinct nodes reachable
/// from `root`, each of them exactly once, with `root` last.
#[verifier::loop_isolation(false)]
fn post_order(g: &TableGraph, root: usize, order: usize) -> (out: Vec<usize>)
    requires
        valid_edges(graph_edge_set(*g), graph_order(*g)),
        order as int == graph_order(*g),
        (root as int) < graph_order(*g),
    ensures
        out@.len() >= 1,
        out@.last() == root,
        forall|k: int| 0 <= k < out@.len() ==> ((#[trigger] out@[k]) as int) < graph_order(*g),
        forall|k1: int, k2: int| 0 <= k1 < k2 < out@.len() ==> out@[k1] != out@[k2],
        forall|j: usize|
            #[trigger] out@.contains(j) <==> ((j as int) < graph_order(*g) && reaches(
                graph_edge_set(*g),
                root,
                j,
            )),
        acyclic(graph_edge_set(*g)) ==> forall|i: int, j: int|
            0 <= i < out@.len() && 0 <= j < out@.len() && i != j && #[trigger] reaches(
                graph_edge_set(*g),
                out@[i],
                out@[j],
            ) ==> j < i,
{
    let ghost es = graph_edge_set(*g);
    let mut visited: Vec<bool> = Vec::new();
    let mut i: usize = 0;
    while i < order
        invariant
            i <= order,
            visited@.len() == i,
            forall|j: int| 0 <= j < i ==> !visited@[j],
        decreases order - i,
    {
        visited.push(false);
        i += 1;
    }
    let mut out: Vec<usize> = Vec::new();
    proof {
        lemma_reaches_self(es, root);
        assert(inv_marks(es, order as int, visited@, out@, Set::empty()));
        assert(all_reachable(es, order as int, visited@, root));
    }
    dfs(g, root, &mut visited, &mut out, Ghost(root), Ghost(Set::empty()));
    proof {
        assert forall|j: usize| out@.contains(j) implies ((j as int) < graph_order(*g) && reaches(
            es,
            root,
            j,
        )) by {
            assert(visited@[j as int]);
        }
        assert(out@.contains(root)) by {
            assert(out@[out@.len() - 1] == root);
        }
        assert forall|j: usize|
            (j as int) < graph_order(*g) && reaches(es, root, j) implies out@.contains(j) by {
            let p = choose|p: Seq<usize>|
                #[trigger] is_path(es, p) && p.first() == root && p.last() == j;
            assert forall|a: usize, b: usize|
                #![trigger out@.contains(a), es.contains((a, b))]
                out@.contains(a) && es.contains((a, b)) implies out@.contains(b) by {
                assert(visited@[b as int]);
            }
            lemma_closed_contains(es, out@, p);
        }
        if acyclic(es) {
            assert forall|i: int, j: int|
                0 <= i < out@.len() && 0 <= j < out@.len() && i != j && #[trigger] reaches(
                es,
                out@[i],
                out@[j],
            ) implies j < i by {
                let p = choose|p: Seq<usize>| #[trigger]
                    is_path(es, p) && p.first() == out@[i] && p.last() == out@[j];
                lemma_ordered_path(es, out@, p, i);
                let k2 = choose|k2: int|
                    0 <= k2 <= i && #[trigger] out@[k2] == p.last() && (p.len() >= 2 ==> k2 < i);
                if p.len() >= 2 {
                    assert(k2 == j);
                } else {
                    assert(out@[i] == out@[j]);
                    assert(i == j);
                }
            }
        }
    }
    out
}

impl DepGraph {
    /// Whether the table named `to` is reachable from the table named
    /// `from` along the dependency edges.
    pub open spec fn reaches_table(self, from: Seq<char>, to: Seq<char>) -> bool {
        self.node_names().contains(to) && reaches(
            self.edges(),
            name_index(self.node_names(), from) as usize,
            name_index(self.node_names(), to) as usize,
        )
    }

    /// The dependency order rooted at `node`: every table reachable from
    /// `node` appears exactly once, `node` itself is last, and — as long
    /// as the graph is acyclic — every table in the order stands after
    /// each table it transitively depends on. Fails when `node` is not a
    /// known table. A cycle cannot make the traversal diverge: each node
    /// is visited at most once, and one member of the cycle is simply
    /// emitted without waiting for the others.
    #[verifier::loop_isolation(false)]
    pub fn get_dependencies_of(&self, node: &str) -> (r: Result<Vec<String>, UnknownTableError>)
        requires
            self.wf(),
        ensures
            match r {
                Ok(deps) => {
                    &&& self.node_names().contains(node@)
                    &&& deps@.len() >= 1
                    &&& deps.deep_view().last() == node@
                    &&& (forall|k1: int, k2: int|
                        0 <= k1 < k2 < deps@.len() ==> deps.deep_view()[k1]
                            != deps.deep_view()[k2])
                    &&& (forall|t: Seq<char>|
                        #[trigger] deps.deep_view().contains(t) <==> self.reaches_table(node@, t))
                    &&& (acyclic(self.edges()) ==> forall|k1: int, k2: int|
                        0 <= k1 < deps@.len() && 0 <= k2 < deps@.len() && k1 != k2
                            && #[trigger] self.reaches_table(
                            deps.deep_view()[k1],
                            deps.deep_view()[k2],
                        ) ==> k2 < k1)
                },
                Err(e) => e.table@ == node@ && !self.node_names().contains(node@),
            },
    {
        let ghost names = self.node_names();
        let root = match index_of_str(&self.names, node) {
            Some(i) => i,
            None => {
                return Err(UnknownTableError { table: node.to_owned() });
            },
        };
        proof {
            lemma_name_index_unique(names, node@, root as int);
            assert(names.contains(node@));
        }
        let out = post_order(&self.graph, root, self.names.len());
        let ghost es = self.edges();
        let mut deps: Vec<String> = Vec::new();
        let mut k: usize = 0;
        while k < out.len()
            invariant
                k <= out@.len(),
                deps@.len() == k,
                forall|t: int|
                    0 <= t < k ==> deps.deep_view()[t] == names[(#[trigger] out@[t]) as int],
            decreases out@.len() - k,
        {
            let idx = out[k];
            let name = self.names[idx].clone();
            proof {
                assert(name@ == names[idx as int]);
            }
            deps.push(name);
            proof {
                assert forall|t: int|
                    0 <= t < k + 1 implies deps.deep_view()[t] == names[(#[trigger] out@[t]) as int] by {
                    assert(deps.deep_view()[t] == deps@[t]@);
                }
            }
            k += 1;
        }
        proof {
            assert(deps.deep_view().len() == deps@.len());
            assert(deps.deep_view().last() == names[(out@.last()) as int]);
            assert forall|k1: int, k2: int|
                0 <= k1 < k2 < deps@.len() implies deps.deep_view()[k1] != deps.deep_view()[k2] by {
                assert(deps.deep_view()[k1] == names[(out@[k1]) as int]);
                assert(deps.deep_view()[k2] == names[(out@[k2]) as int]);
                assert(out@[k1] != out@[k2]);
            }
            assert forall|t: Seq<char>| #[trigger]
                deps.deep_view().contains(t) implies self.reaches_table(node@, t) by {
                let i = choose|i: int| 0 <= i < deps.deep_view().len() && deps.deep_view()[i] == t;
                let j = out@[i];
                assert(out@.contains(j));
                assert(names[j as int] == t);
                assert(names.contains(t));
                lemma_name_index_unique(names, t, j as int);
            }
            assert forall|t: Seq<char>|
                self.reaches_table(node@, t) implies #[trigger] deps.deep_view().contains(t) by {
                let j = name_index(names, t);
                assert(0 <= j < names.len() && names[j] == t);
                assert(out@.contains(j as usize));
                let i = choose|i: int| 0 <= i < out@.len() && out@[i] == j as usize;
                assert(deps.deep_view()[i] == t);
            }
            if acyclic(es) {
                assert forall|k1: int, k2: int|
                    0 <= k1 < deps@.len() && 0 <= k2 < deps@.len() && k1 != k2
                        && #[trigger] self.reaches_table(
                        deps.deep_view()[k1],
                        deps.deep_view()[k2],
                    ) implies k2 < k1 by {
                    assert(deps.deep_view()[k1] == names[(out@[k1]) as int]);
                    assert(deps.deep_view()[k2] == names[(out@[k2]) as int]);
                    lemma_name_index_unique(names, deps.deep_view()[k1], out@[k1] as int);
                    lemma_name_index_unique(names, deps.deep_view()[k2], out@[k2] as int);
                    assert(reaches(es, out@[k1], out@[k2]));
                }
            }
        }
        Ok(deps)
    }
}

/// Law: a dependency order that repeats nothing and ends with its root
/// holds the root exactly once, and every other table it holds stands
/// strictly before the root. `get_dependencies_of` returns such an
/// order holding exactly the tables reachable from the root, so every
/// table the root transitively depends on stands strictly before it.
pub proof fn lemma_order_places_root_last(deps: Seq<Seq<char>>, root: Seq<char>)
    requires
        deps.len() >= 1,
        deps.last() == root,
        forall|k1: int, k2: int| 0 <= k1 < k2 < deps.len() ==> deps[k1] != deps[k2],
    ensures
        forall|k: int| 0 <= k < deps.len() && deps[k] == root ==> k == deps.len() - 1,
        forall|t: Seq<char>|
            #[trigger] deps.contains(t) && t != root ==> exists|k: int|
                0 <= k < deps.len() - 1 && deps[k] == t,
{
    assert forall|t: Seq<char>| #[trigger] deps.contains(t) && t != root implies exists|k: int|
        0 <= k < deps.len() - 1 && deps[k] == t by {
        let k = choose|k: int| 0 <= k < deps.len() && deps[k] == t;
        assert(deps[deps.len() - 1] == root);
        assert(k != deps.len() - 1);
    }
}

/// The known tables, as the graph's node list.
pub fn tables_as_nodes(tables: &Vec<String>) -> (r: Vec<String>)
    ensures
        r.deep_view() == tables.deep_view(),
{
    clone_names(tables)
}

/// Whether the first many-to-many declaration for table `name` (if any)
/// declares `source` as its primary side, so that the edge of a
/// relationship from `name` to `source` is reversed.
pub open spec fn m2m_redirects(m2m: Seq<M2MModel>, name: Seq<char>, source: Seq<char>) -> bool {
    exists|i: int|
        0 <= i < m2m.len() && (#[trigger] m2m[i]).name == name && m2m[i].source == source
            && forall|j: int| 0 <= j < i ==> (#[trigger] m2m[j]).name != name
}

/// The graph edge contributed by one relationship: by default the
/// referencing table depends on the referenced table; a declared join
/// table instead hangs off its declared primary side.
pub open spec fn edge_of(r: RelModel, m2m: Seq<M2MModel>) -> (Seq<char>, Seq<char>) {
    if m2m_redirects(m2m, r.source_table, r.dest_table) {
        (r.dest_table, r.source_table)
    } else {
        (r.source_table, r.dest_table)
    }
}

fn m2m_first(m2m: &Vec<M2MTable>, table: &str) -> (r: Option<usize>)
    ensures
        match r {
            Some(i) => i < m2m@.len() && m2m_models(m2m@)[i as int].name == table@ && forall|j: int|
                0 <= j < i ==> (#[trigger] m2m_models(m2m@)[j]).name != table@,
            None => forall|j: int|
                0 <= j < m2m@.len() ==> (#[trigger] m2m_models(m2m@)[j]).name != table@,
        },
{
    let mut i: usize = 0;
    while i < m2m.len()
        invariant
            i <= m2m@.len(),
            forall|j: int| 0 <= j < i ==> (#[trigger] m2m_models(m2m@)[j]).name != table@,
        decreases m2m@.len() - i,
    {
        if str_eq(m2m[i].name.as_str(), table) {
            assert(m2m_models(m2m@)[i as int].name == table@);
            return Some(i);
        }
        assert(m2m_models(m2m@)[i as int].name != table@);
        i += 1;
    }
    None
}

/// Turns the relationship list into graph edges, reversing the edge of a
/// join table's foreign key that points at its declared primary side.
#[verifier::loop_isolation(false)]
pub fn relationships_as_edges(relationships: &Vec<Relationship>, m2m_tables: &Vec<M2MTable>) -> (r:
    Vec<(String, String)>)
    ensures
        r@.len() == relationships@.len(),
        forall|i: int|
            0 <= i < r@.len() ==> #[trigger] edge_views(r@)[i] == edge_of(
                rel_models(relationships@)[i],
                m2m_models(m2m_tables@),
            ),
{
    let ghost m2m = m2m_models(m2m_tables@);
    let mut r: Vec<(String, String)> = Vec::new();
    let mut i: usize = 0;
    while i < relationships.len()
        invariant
            i <= relationships@.len(),
            r@.len() == i,
            forall|k: int|
                0 <= k < i ==> #[trigger] edge_views(r@)[k] == edge_of(
                    rel_models(relationships@)[k],
                    m2m,
                ),
        decreases relationships@.len() - i,
    {
        let rel = &relationships[i];
        let ghost rm = rel_models(relationships@)[i as int];
        let redirect = match m2m_first(m2m_tables, rel.source_table.as_str()) {
            Some(t) => str_eq(m2m_tables[t].source.as_str(), rel.dest_table.as_str()),
            None => false,
        };
        proof {
            assert(redirect == m2m_redirects(m2m, rm.source_table, rm.dest_table));
        }
        let edge = if redirect {
            (rel.dest_table.clone(), rel.source_table.clone())
        } else {
            (rel.source_table.clone(), rel.dest_table.clone())
        };
        let ghost ev = (edge.0@, edge.1@);
        proof {
            assert(ev == edge_of(rm, m2m));
        }
        let ghost r_old = r@;
        r.push(edge);
        proof {
            assert forall|k: int| 0 <= k < i + 1 implies #[trigger] edge_views(r@)[k] == edge_of(
                rel_models(relationships@)[k],
                m2m,
            ) by {
                assert(edge_views(r@)[k] == (r@[k].0@, r@[k].1@));
                if k < i {
                    assert(r@[k] == r_old[k]);
                    assert(edge_views(r_old)[k] == (r_old[k].0@, r_old[k].1@));
                } else {
                    assert((r@[k].0@, r@[k].1@) == ev);
                }
            }
        }
        i += 1;
    }
    r
}

} // verus!
