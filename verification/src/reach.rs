//! Reachability and strongly connected components over a directed graph,
//! given as the set of its edges on integer node labels.

use vstd::prelude::*;

verus! {

/// `p` is a walk through the edge set `es`: nonempty, and each adjacent
/// pair of positions is connected by an edge.
pub open spec fn is_path(es: Set<(int, int)>, p: Seq<int>) -> bool {
    &&& p.len() >= 1
    &&& forall|k: int| 0 <= k < p.len() - 1 ==> es.contains(((#[trigger] p[k]), p[k + 1]))
}

/// Node `b` can be reached from node `a` along the edges of `es`
/// (in zero or more steps).
pub open spec fn reaches(es: Set<(int, int)>, a: int, b: int) -> bool {
    exists|p: Seq<int>| is_path(es, p) && p.first() == a && p.last() == b
}

/// `a` and `b` lie on a common directed cycle (each reaches the other).
pub open spec fn same_scc(es: Set<(int, int)>, a: int, b: int) -> bool {
    reaches(es, a, b) && reaches(es, b, a)
}

/// `s` is a strongly connected component of the graph with nodes
/// `0 .. n` and edges `es`: a set of nodes that reach one another
/// mutually, and that no further node of the graph could join.
pub open spec fn is_scc_set(es: Set<(int, int)>, n: int, s: Set<int>) -> bool {
    &&& forall|v: int| s.contains(v) ==> 0 <= v < n
    &&& forall|u: int, v: int| s.contains(u) && s.contains(v) ==> same_scc(es, u, v)
    &&& forall|u: int, w: int|
        s.contains(u) && 0 <= w < n && #[trigger] same_scc(es, u, w) ==> s.contains(w)
}

pub proof fn lemma_reaches_self(es: Set<(int, int)>, a: int)
    ensures
        reaches(es, a, a),
{
    let p = seq![a];
    assert(is_path(es, p) && p.first() == a && p.last() == a);
}

pub proof fn lemma_edge_reaches(es: Set<(int, int)>, a: int, b: int)
    requires
        es.contains((a, b)),
    ensures
        reaches(es, a, b),
{
    let p = seq![a, b];
    assert(is_path(es, p) && p.first() == a && p.last() == b);
}

/// If every edge of `es` stays within `s`, then any node reached from
/// anywhere is either the start itself or a member of `s`.
pub proof fn lemma_reach_target(es: Set<(int, int)>, a: int, b: int, s: Set<int>)
    requires
        reaches(es, a, b),
        forall|x: int, y: int| #[trigger] es.contains((x, y)) ==> s.contains(x) && s.contains(y),
    ensures
        a == b || s.contains(b),
{
    let p = choose|p: Seq<int>| is_path(es, p) && p.first() == a && p.last() == b;
    if p.len() == 1 {
        assert(a == b);
    } else {
        let k = p.len() - 2;
        assert(es.contains((p[k], p[k + 1])));
        assert(p.last() == p[p.len() - 1]);
    }
}

} // verus!
