//! The cycle detector's specification and its public entry point: what
//! list of cycles a dependency graph gives rise to, and the detector
//! over packages, which reports each cycle as the identifiers of its
//! members.

use vstd::prelude::*;

use crate::graph::{build_graph, dep_edge_set};
use crate::package::{distinct_ids, total_deps, views, Package, PackageView};
use crate::reach::is_scc_set;

verus! {

/// The set of nodes that a component lists.
pub open spec fn comp_set(c: Seq<usize>) -> Set<int> {
    Set::new(|v: int| exists|k: int| 0 <= k < c.len() && ((#[trigger] c[k]) as int) == v)
}

/// The component lists no node twice.
pub open spec fn no_dup(c: Seq<usize>) -> bool {
    forall|k1: int, k2: int| 0 <= k1 < k2 < c.len() ==> c[k1] != c[k2]
}

/// The cycle list `r` is right for the graph with nodes `0 .. n` and
/// edge set `es`:
/// - an entry with more than one member is a strongly connected
///   component of the graph, listed without repetition; every such
///   component with at least two nodes appears, and no two entries list
///   a common node;
/// - an entry with exactly one member is a node with a self-loop; every
///   node with a self-loop appears in exactly one such entry;
/// - nothing else appears: every entry is nonempty and lists nodes of
///   the graph.
pub open spec fn detection_ok(es: Set<(int, int)>, n: int, r: Seq<Vec<usize>>) -> bool {
    &&& forall|c: int| 0 <= c < r.len() ==> (#[trigger] r[c])@.len() >= 1
    &&& forall|c: int, k: int|
        0 <= c < r.len() && 0 <= k < r[c]@.len() ==> ((#[trigger] r[c]@[k]) as int) < n
    &&& forall|c: int|
        0 <= c < r.len() && (#[trigger] r[c])@.len() > 1 ==> no_dup(r[c]@) && is_scc_set(
            es,
            n,
            comp_set(r[c]@),
        )
    &&& forall|c: int|
        0 <= c < r.len() && (#[trigger] r[c])@.len() == 1 ==> es.contains(
            (r[c]@[0] as int, r[c]@[0] as int),
        )
    &&& forall|s: Set<int>, u: int, v: int|
        #[trigger] is_scc_set(es, n, s) && #[trigger] s.contains(u) && #[trigger] s.contains(v)
            && u != v ==> exists|c: int|
            0 <= c < r.len() && (#[trigger] r[c])@.len() > 1 && comp_set(r[c]@) == s
    &&& forall|v: int|
        0 <= v < n && #[trigger] es.contains((v, v)) ==> exists|c: int|
            0 <= c < r.len() && (#[trigger] r[c])@.len() == 1 && r[c]@[0] as int == v
    &&& forall|c1: int, c2: int|
        0 <= c1 < c2 < r.len() && (#[trigger] r[c1])@.len() > 1 && (#[trigger] r[c2])@.len() > 1
            ==> comp_set(r[c1]@).disjoint(comp_set(r[c2]@))
    &&& forall|c1: int, c2: int|
        0 <= c1 < c2 < r.len() && (#[trigger] r[c1])@.len() == 1 && (#[trigger] r[c2])@.len() == 1
            ==> r[c1]@[0] != r[c2]@[0]
}

/// Row for row, `r` holds the identifiers of the workspace members that
/// the index list `ix` names.
pub open spec fn named_of(ws: Seq<PackageView>, ix: Seq<Vec<usize>>, r: Seq<Vec<String>>) -> bool {
    &&& r.len() == ix.len()
    &&& forall|c: int| 0 <= c < ix.len() ==> (#[trigger] r[c])@.len() == ix[c]@.len()
    &&& forall|c: int, k: int|
        0 <= c < ix.len() && 0 <= k < ix[c]@.len() ==> ((#[trigger] r[c]@[k])@) == ws[ix[c]@[
            k
        ] as int].id
}

/// The cycle list `r`, over package identifiers, comes from a right
/// cycle list over node indices of the dependency graph of `ws`
/// resolved against `uni`.
pub open spec fn detects(ws: Seq<PackageView>, uni: Seq<PackageView>, r: Seq<Vec<String>>) -> bool {
    exists|ix: Seq<Vec<usize>>|
        #[trigger] detection_ok(dep_edge_set(ws, uni), ws.len() as int, ix) && named_of(ws, ix, r)
}

/// Detect every dependency cycle among the workspace packages: each
/// strongly connected component with more than one member, and each
/// direct self-dependency, as a list of the member packages'
/// identifiers.
#[verifier::loop_isolation(false)]
pub fn detect_cycles(workspace: &Vec<Package>, universe: &Vec<Package>) -> (r: Vec<Vec<String>>)
    requires
        distinct_ids(views(workspace@)),
        views(workspace@).len() + total_deps(views(workspace@)) < 0xFFFF_FFFE,
    ensures
        detects(views(workspace@), views(universe@), r@),
{
    let ghost wsv = views(workspace@);
    let ghost univ = views(universe@);
    let g = build_graph(workspace, universe);
    proof {
        assert(g.edge_set() =~= dep_edge_set(wsv, univ));
        assert(g.node_ids().len() == wsv.len());
    }
    let ix = g.cycle_indices();
    let mut r: Vec<Vec<String>> = Vec::new();
    let mut c: usize = 0;
    while c < ix.len()
        invariant
            c <= ix@.len(),
            r@.len() == c,
            forall|t: int| 0 <= t < c ==> (#[trigger] r@[t])@.len() == ix@[t]@.len(),
            forall|t: int, k: int|
                0 <= t < c && 0 <= k < ix@[t]@.len() ==> ((#[trigger] r@[t]@[k])@) == wsv[ix@[t]@[
                    k
                ] as int].id,
        decreases ix@.len() - c,
    {
        let comp = &ix[c];
        let mut row: Vec<String> = Vec::new();
        let mut k: usize = 0;
        while k < comp.len()
            invariant
                k <= comp@.len(),
                row@.len() == k,
                forall|m: int|
                    0 <= m < k ==> ((#[trigger] row@[m])@) == wsv[comp@[m] as int].id,
            decreases comp@.len() - k,
        {
            let idx = comp[k];
            row.push(g.id_at(idx));
            k += 1;
        }
        r.push(row);
        c += 1;
    }
    proof {
        assert(named_of(wsv, ix@, r@));
        assert(detection_ok(dep_edge_set(wsv, univ), wsv.len() as int, ix@));
    }
    r
}

} // verus!
