//! The trusted boundary to the petgraph crate: the directed graph that
//! the detector runs over is a `petgraph::graph::Graph`, and the
//! strongly-connected-component partition is computed by
//! `petgraph::algo::tarjan_scc`.  Everything petgraph does is stated
//! here as a contract over two named views of the graph value: the
//! number of its nodes, and the multiset of its directed edges on
//! `usize` node indices.

use vstd::prelude::*;

use crate::reach::same_scc;
use vstd::multiset::Multiset;

verus! {

#[verifier::external_type_specification]
#[verifier::external_body]
#[verifier::reject_recursive_types(N)]
#[verifier::reject_recursive_types(E)]
#[verifier::reject_recursive_types(Ty)]
#[verifier::reject_recursive_types(Ix)]
pub struct ExGraph<N, E, Ty, Ix>(petgraph::graph::Graph<N, E, Ty, Ix>);

#[verifier::external_type_specification]
#[verifier::external_body]
pub struct ExDirected(petgraph::Directed);

/// How many nodes the graph holds.
pub uninterp spec fn graph_nodes(
    g: petgraph::graph::Graph<(), (), petgraph::Directed, u32>,
) -> nat;

/// The directed edges the graph holds, as pairs of node indices;
/// parallel edges count separately.
pub uninterp spec fn graph_edges(
    g: petgraph::graph::Graph<(), (), petgraph::Directed, u32>,
) -> Multiset<(int, int)>;

/// The support of `graph_edges`: the pairs of node indices that at
/// least one directed edge connects.
pub open spec fn graph_edge_set(
    g: petgraph::graph::Graph<(), (), petgraph::Directed, u32>,
) -> Set<(int, int)> {
    Set::new(|pr: (int, int)| graph_edges(g).count(pr) > 0)
}

/// Node `v` appears somewhere in the component list `r`.
pub open spec fn covered(r: Seq<Vec<usize>>, v: int) -> bool {
    exists|c: int, k: int|
        0 <= c < r.len() && 0 <= k < r[c]@.len() && ((#[trigger] r[c]@[k]) as int) == v
}

/// Relies on petgraph::graph::Graph::new: a directed graph with no
/// nodes and no edges.
#[verifier::external_body]
pub(crate) fn graph_new() -> (g: petgraph::graph::Graph<(), (), petgraph::Directed, u32>)
    ensures
        graph_nodes(g) == 0,
        graph_edges(g) == Multiset::<(int, int)>::empty(),
{
    petgraph::graph::Graph::new()
}

/// Relies on petgraph::graph::Graph::add_node: it appends one node,
/// whose index is the previous node count, and leaves the edges alone.
/// It panics only at the `u32` node-index limit, which the bound on the
/// old node count keeps out of reach.
#[verifier::external_body]
pub(crate) fn graph_add_node(
    g: &mut petgraph::graph::Graph<(), (), petgraph::Directed, u32>,
) -> (i: usize)
    requires
        graph_nodes(*old(g)) + 1 < 0xFFFF_FFFF,
    ensures
        i as int == graph_nodes(*old(g)),
        graph_nodes(*final(g)) == graph_nodes(*old(g)) + 1,
        graph_edges(*final(g)) == graph_edges(*old(g)),
{
    g.add_node(()).index()
}

/// Relies on petgraph::graph::Graph::add_edge: it adds one directed
/// edge from node `a` to node `b` (parallel edges allowed) and leaves
/// the nodes alone.  It panics only when an endpoint does not exist or
/// at the `u32` edge-index limit; the requirements keep both out.
#[verifier::external_body]
pub(crate) fn graph_add_edge(
    g: &mut petgraph::graph::Graph<(), (), petgraph::Directed, u32>,
    a: usize,
    b: usize,
)
    requires
        (a as int) < graph_nodes(*old(g)),
        (b as int) < graph_nodes(*old(g)),
        graph_edges(*old(g)).len() + 1 < 0xFFFF_FFFF,
    ensures
        graph_nodes(*final(g)) == graph_nodes(*old(g)),
        graph_edges(*final(g)) == graph_edges(*old(g)).insert((a as int, b as int)),
{
    g.add_edge(
        petgraph::graph::NodeIndex::new(a),
        petgraph::graph::NodeIndex::new(b),
        (),
    );
}

/// Relies on petgraph::graph::Graph::contains_edge: whether some
/// directed edge runs from node `a` to node `b`.
#[verifier::external_body]
pub(crate) fn graph_contains_edge(
    g: &petgraph::graph::Graph<(), (), petgraph::Directed, u32>,
    a: usize,
    b: usize,
) -> (r: bool)
    ensures
        r == graph_edge_set(*g).contains((a as int, b as int)),
{
    g.contains_edge(petgraph::graph::NodeIndex::new(a), petgraph::graph::NodeIndex::new(b))
}

/// Relies on petgraph::algo::tarjan_scc: it returns the strongly
/// connected components of the graph.  Each returned vector lists the
/// member nodes of one component, every node of the graph appears in
/// exactly one position of the result, the members of one component all
/// lie on common directed cycles, and a component takes in every node
/// that lies on a common directed cycle with one of its members.
#[verifier::external_body]
pub(crate) fn graph_tarjan_scc(
    g: &petgraph::graph::Graph<(), (), petgraph::Directed, u32>,
) -> (r: Vec<Vec<usize>>)
    ensures
        forall|c: int| 0 <= c < r@.len() ==> #[trigger] r@[c]@.len() >= 1,
        forall|c: int, k: int|
            0 <= c < r@.len() && 0 <= k < r@[c]@.len() ==> ((#[trigger] r@[c]@[k]) as int)
                < graph_nodes(*g),
        forall|v: int| 0 <= v < graph_nodes(*g) ==> #[trigger] covered(r@, v),
        forall|c1: int, k1: int, c2: int, k2: int|
            0 <= c1 < r@.len() && 0 <= k1 < r@[c1]@.len() && 0 <= c2 < r@.len() && 0 <= k2
                < r@[c2]@.len() && #[trigger] r@[c1]@[k1] == #[trigger] r@[c2]@[k2] ==> c1 == c2
                && k1 == k2,
        forall|c: int, k1: int, k2: int|
            0 <= c < r@.len() && 0 <= k1 < r@[c]@.len() && 0 <= k2 < r@[c]@.len()
                ==> same_scc(graph_edge_set(*g), #[trigger] r@[c]@[k1] as int, #[trigger] r@[c]@[k2] as int),
        forall|c: int, k: int, w: int|
            0 <= c < r@.len() && 0 <= k < r@[c]@.len() && 0 <= w < graph_nodes(*g)
                && #[trigger] same_scc(graph_edge_set(*g), r@[c]@[k] as int, w) ==> exists|k2: int|
                0 <= k2 < r@[c]@.len() && #[trigger] r@[c]@[k2] as int == w,
{
    petgraph::algo::tarjan_scc(g)
        .into_iter()
        .map(|comp| comp.into_iter().map(|ix| ix.index()).collect())
        .collect()
}

} // verus!
