//! The graph builder: from the workspace packages and the wider package
//! universe to a directed dependency graph over workspace members only.

use vstd::prelude::*;
use vstd::multiset::Multiset;

use crate::package::{
    distinct_ids, find_by_id, find_by_name, first_with_name, ids_of,
    lemma_first_with_name_unique, lemma_total_deps_take_le, lemma_total_deps_take_step,
    total_deps, views, Package, PackageView,
};
use crate::detect::{comp_set, detection_ok, no_dup};
use crate::petgraph_link::{
    graph_add_edge, graph_add_node, graph_contains_edge, graph_edge_set, graph_edges,
    graph_new, graph_nodes, graph_tarjan_scc,
};
use crate::reach::{is_scc_set, same_scc};

verus! {

/// Workspace member `a` declares a dependency whose name resolves, via
/// the first universe package of that name, to the identifier of
/// workspace member `b`.  This is the edge relation of the dependency
/// graph; dependencies that resolve to no workspace member induce no
/// edge.
pub open spec fn dep_edge(ws: Seq<PackageView>, uni: Seq<PackageView>, a: int, b: int) -> bool {
    &&& 0 <= a < ws.len()
    &&& 0 <= b < ws.len()
    &&& exists|d: int, k: int|
        0 <= d < ws[a].deps.len() && #[trigger] first_with_name(uni, ws[a].deps[d], k)
            && uni[k].id == ws[b].id
}

/// The edge relation as a set of index pairs.
pub open spec fn dep_edge_set(ws: Seq<PackageView>, uni: Seq<PackageView>) -> Set<(int, int)> {
    Set::new(|pr: (int, int)| dep_edge(ws, uni, pr.0, pr.1))
}

/// `dep_edge`, restricted to the dependency declarations that precede
/// position `d` of workspace member `i`: member `a`'s declaration `dd`
/// counts only when `a < i`, or `a == i` and `dd < d`.
pub open spec fn dep_edge_before(
    ws: Seq<PackageView>,
    uni: Seq<PackageView>,
    i: int,
    d: int,
    a: int,
    b: int,
) -> bool {
    &&& 0 <= a < ws.len()
    &&& 0 <= b < ws.len()
    &&& exists|dd: int, k: int|
        0 <= dd < ws[a].deps.len() && (a < i || (a == i && dd < d))
            && #[trigger] first_with_name(uni, ws[a].deps[dd], k) && uni[k].id == ws[b].id
}

/// The dependency graph of a workspace: one node per member, in input
/// order, and one edge per resolved intra-workspace dependency.
pub struct DependencyGraph {
    graph: petgraph::graph::Graph<(), (), petgraph::Directed, u32>,
    ids: Vec<String>,
}

impl DependencyGraph {
    /// The package identifier at each node index.
    pub closed spec fn node_ids(self) -> Seq<Seq<char>> {
        self.ids@.map_values(|s: String| s@)
    }

    /// The edges, as a set of node-index pairs.
    pub closed spec fn edge_set(self) -> Set<(int, int)> {
        graph_edge_set(self.graph)
    }

    /// The node count and the identifier list agree.
    pub closed spec fn wf(self) -> bool {
        graph_nodes(self.graph) == self.ids@.len()
    }

    /// The identifier of the package at node index `i`.
    pub fn id_at(&self, i: usize) -> (s: String)
        requires
            (i as int) < self.node_ids().len(),
        ensures
            s@ == self.node_ids()[i as int],
    {
        self.ids[i].clone()
    }

    /// List every cycle of the graph, as node indices: each strongly
    /// connected component with more than one member, followed by one
    /// single-member entry per node with a self-loop.
    #[verifier::loop_isolation(false)]
    #[verifier::rlimit(50)]
    pub fn cycle_indices(&self) -> (r: Vec<Vec<usize>>)
        requires
            self.wf(),
        ensures
            detection_ok(self.edge_set(), self.node_ids().len() as int, r@),
    {
        let ghost es = self.edge_set();
        let ghost n = self.node_ids().len() as int;
        let sccs = graph_tarjan_scc(&self.graph);
        let ghost s = sccs@;
        let mut r: Vec<Vec<usize>> = Vec::new();
        let ghost mut src: Seq<int> = Seq::empty();
        let mut c: usize = 0;
        while c < sccs.len()
            invariant
                c <= s.len(),
                src.len() == r@.len(),
                forall|t: int| 0 <= t < src.len() ==> 0 <= #[trigger] src[t] < c as int,
                forall|t1: int, t2: int| 0 <= t1 < t2 < src.len() ==> src[t1] < src[t2],
                forall|t: int| 0 <= t < src.len() ==> (#[trigger] r@[t])@ == s[src[t]]@,
                forall|t: int| 0 <= t < r@.len() ==> (#[trigger] r@[t])@.len() > 1,
                forall|cs: int|
                    0 <= cs < c as int && (#[trigger] s[cs])@.len() > 1 ==> exists|t: int|
                        0 <= t < r@.len() && (#[trigger] r@[t])@ == s[cs]@,
            decreases s.len() - c,
        {
            if sccs[c].len() > 1 {
                let ghost r0 = r@;
                let row = copy_indices(&sccs[c]);
                r.push(row);
                proof {
                    src = src.push(c as int);
                    assert forall|cs: int|
                        0 <= cs < c as int + 1 && (#[trigger] s[cs])@.len() > 1 implies exists|
                        t: int,
                    | 0 <= t < r@.len() && (#[trigger] r@[t])@ == s[cs]@ by {
                        if cs == c as int {
                            assert(r@[r@.len() - 1]@ == s[cs]@);
                        } else {
                            let t = choose|t: int|
                                0 <= t < r0.len() && (#[trigger] r0[t])@ == s[cs]@;
                            assert(r@[t]@ == s[cs]@);
                        }
                    }
                }
            }
            c += 1;
        }
        let ghost r1 = r@;
        let mut v: usize = 0;
        while v < self.ids.len()
            invariant
                v <= self.ids@.len(),
                r@.len() >= r1.len(),
                forall|t: int| 0 <= t < r1.len() ==> #[trigger] r@[t] == r1[t],
                forall|t: int|
                    r1.len() <= t < r@.len() ==> (#[trigger] r@[t])@.len() == 1,
                forall|t: int|
                    r1.len() <= t < r@.len() ==> es.contains(
                        ((#[trigger] r@[t])@[0] as int, r@[t]@[0] as int),
                    ) && (r@[t]@[0] as int) < v as int,
                forall|t1: int, t2: int|
                    r1.len() <= t1 < t2 < r@.len() ==> (#[trigger] r@[t1])@[0] != (
                    #[trigger] r@[t2])@[0],
                forall|w: int|
                    0 <= w < v as int && #[trigger] es.contains((w, w)) ==> exists|t: int|
                        r1.len() <= t < r@.len() && (#[trigger] r@[t])@[0] as int == w,
            decreases self.ids@.len() - v,
        {
            if graph_contains_edge(&self.graph, v, v) {
                let ghost r0 = r@;
                let mut single: Vec<usize> = Vec::new();
                single.push(v);
                r.push(single);
                proof {
                    assert forall|w: int|
                        0 <= w < v as int + 1 && #[trigger] es.contains((w, w)) implies exists|
                        t: int,
                    | r1.len() <= t < r@.len() && (#[trigger] r@[t])@[0] as int == w by {
                        if w == v as int {
                            assert(r@[r@.len() - 1]@[0] as int == w);
                        } else {
                            let t = choose|t: int|
                                r1.len() <= t < r0.len() && (#[trigger] r0[t])@[0] as int == w;
                            assert(r@[t]@[0] as int == w);
                        }
                    }
                }
            }
            v += 1;
        }
        proof {
            lemma_detection_assembled(es, n, s, src, r1, r@);
        }
        r
    }
}

/// Copy a list of node indices.
fn copy_indices(src: &Vec<usize>) -> (r: Vec<usize>)
    ensures
        r@ == src@,
{
    let mut r: Vec<usize> = Vec::new();
    let mut k: usize = 0;
    while k < src.len()
        invariant
            k <= src@.len(),
            r@ == src@.take(k as int),
        decreases src@.len() - k,
    {
        let x = src[k];
        r.push(x);
        proof {
            assert(src@.take(k as int + 1) =~= src@.take(k as int).push(src@[k as int]));
        }
        k += 1;
    }
    proof {
        assert(src@.take(src@.len() as int) =~= src@);
    }
    r
}

#[verifier::rlimit(100)]
/// Assemble `detection_ok` for the finished cycle list `r`: its prefix
/// `r1` copies (via the positions `src`) exactly the components of the
/// partition `s` with more than one member, and its remainder lists, in
/// increasing order, exactly the nodes with a self-loop.
proof fn lemma_detection_assembled(
    es: Set<(int, int)>,
    n: int,
    s: Seq<Vec<usize>>,
    src: Seq<int>,
    r1: Seq<Vec<usize>>,
    r: Seq<Vec<usize>>,
)
    requires
        // the partition `s` (what tarjan gave)
        forall|c: int| 0 <= c < s.len() ==> (#[trigger] s[c])@.len() >= 1,
        forall|c: int, k: int|
            0 <= c < s.len() && 0 <= k < s[c]@.len() ==> ((#[trigger] s[c]@[k]) as int) < n,
        forall|v: int| 0 <= v < n ==> #[trigger] crate::petgraph_link::covered(s, v),
        forall|c1: int, k1: int, c2: int, k2: int|
            0 <= c1 < s.len() && 0 <= k1 < s[c1]@.len() && 0 <= c2 < s.len() && 0 <= k2
                < s[c2]@.len() && #[trigger] s[c1]@[k1] == #[trigger] s[c2]@[k2] ==> c1 == c2
                && k1 == k2,
        forall|c: int, k1: int, k2: int|
            0 <= c < s.len() && 0 <= k1 < s[c]@.len() && 0 <= k2 < s[c]@.len() ==> same_scc(
                es,
                #[trigger] s[c]@[k1] as int,
                #[trigger] s[c]@[k2] as int,
            ),
        forall|c: int, k: int, w: int|
            0 <= c < s.len() && 0 <= k < s[c]@.len() && 0 <= w < n && #[trigger] same_scc(
                es,
                s[c]@[k] as int,
                w,
            ) ==> exists|k2: int| 0 <= k2 < s[c]@.len() && (#[trigger] s[c]@[k2]) as int == w,
        // the prefix r1: the big components of s, via src
        src.len() == r1.len(),
        forall|t: int| 0 <= t < src.len() ==> 0 <= #[trigger] src[t] < s.len(),
        forall|t1: int, t2: int| 0 <= t1 < t2 < src.len() ==> src[t1] < src[t2],
        forall|t: int| 0 <= t < src.len() ==> (#[trigger] r1[t])@ == s[src[t]]@,
        forall|t: int| 0 <= t < r1.len() ==> (#[trigger] r1[t])@.len() > 1,
        forall|cs: int|
            0 <= cs < s.len() && (#[trigger] s[cs])@.len() > 1 ==> exists|t: int|
                0 <= t < r1.len() && (#[trigger] r1[t])@ == s[cs]@,
        // the whole list r: r1 plus one entry per self-loop node
        r.len() >= r1.len(),
        forall|t: int| 0 <= t < r1.len() ==> #[trigger] r[t] == r1[t],
        forall|t: int| r1.len() <= t < r.len() ==> (#[trigger] r[t])@.len() == 1,
        forall|t: int|
            r1.len() <= t < r.len() ==> es.contains(
                ((#[trigger] r[t])@[0] as int, r[t]@[0] as int),
            ) && (r[t]@[0] as int) < n,
        forall|t1: int, t2: int|
            r1.len() <= t1 < t2 < r.len() ==> (#[trigger] r[t1])@[0] != (#[trigger] r[t2])@[0],
        forall|w: int|
            0 <= w < n && #[trigger] es.contains((w, w)) ==> exists|t: int|
                r1.len() <= t < r.len() && (#[trigger] r[t])@[0] as int == w,
    ensures
        detection_ok(es, n, r),
{
    // every entry is nonempty and in range
    assert forall|c: int| 0 <= c < r.len() implies (#[trigger] r[c])@.len() >= 1 by {
        if c < r1.len() {
            assert(r[c] == r1[c]);
        }
    }
    assert forall|c: int, k: int|
        0 <= c < r.len() && 0 <= k < r[c]@.len() implies ((#[trigger] r[c]@[k]) as int) < n by {
        if c < r1.len() {
            assert(r[c] == r1[c]);
            let cs = src[c];
            assert(r1[c]@ == s[cs]@);
            assert((s[cs]@[k] as int) < n);
        }
    }
    // entries with more than one member are components
    assert forall|c: int|
        0 <= c < r.len() && (#[trigger] r[c])@.len() > 1 implies no_dup(r[c]@) && is_scc_set(
        es,
        n,
        comp_set(r[c]@),
    ) by {
        assert(c < r1.len());
        assert(r[c] == r1[c]);
        let cs = src[c];
        assert(r[c]@ == s[cs]@);
        assert(no_dup(r[c]@)) by {
            assert forall|k1: int, k2: int| 0 <= k1 < k2 < r[c]@.len() implies r[c]@[k1]
                != r[c]@[k2] by {
                assert(s[cs]@[k1] == r[c]@[k1] && s[cs]@[k2] == r[c]@[k2]);
            }
        }
        let cset = comp_set(r[c]@);
        assert forall|x: int| cset.contains(x) implies 0 <= x < n by {
            let k = choose|k: int| 0 <= k < r[c]@.len() && ((#[trigger] r[c]@[k]) as int) == x;
            assert((s[cs]@[k] as int) < n);
        }
        assert forall|u: int, x: int| cset.contains(u) && cset.contains(x) implies same_scc(
            es,
            u,
            x,
        ) by {
            let ku = choose|k: int| 0 <= k < r[c]@.len() && ((#[trigger] r[c]@[k]) as int) == u;
            let kx = choose|k: int| 0 <= k < r[c]@.len() && ((#[trigger] r[c]@[k]) as int) == x;
            assert(same_scc(es, s[cs]@[ku] as int, s[cs]@[kx] as int));
        }
        assert forall|u: int, w: int|
            cset.contains(u) && 0 <= w < n && #[trigger] same_scc(es, u, w) implies cset.contains(
            w,
        ) by {
            let ku = choose|k: int| 0 <= k < r[c]@.len() && ((#[trigger] r[c]@[k]) as int) == u;
            assert(same_scc(es, s[cs]@[ku] as int, w));
            let k2 = choose|k2: int|
                0 <= k2 < s[cs]@.len() && ((#[trigger] s[cs]@[k2]) as int) == w;
            assert(r[c]@[k2] as int == w);
        }
    }
    // single-member entries are self-loops
    assert forall|c: int|
        0 <= c < r.len() && (#[trigger] r[c])@.len() == 1 implies es.contains(
        (r[c]@[0] as int, r[c]@[0] as int),
    ) by {
        if c < r1.len() {
            assert(r[c] == r1[c]);
        }
    }
    // every component with two members or more appears
    assert forall|sset: Set<int>, u: int, x: int|
        #[trigger] is_scc_set(es, n, sset) && #[trigger] sset.contains(u)
            && #[trigger] sset.contains(x) && u != x implies exists|c: int|
        0 <= c < r.len() && (#[trigger] r[c])@.len() > 1 && comp_set(r[c]@) == sset by {
        assert(0 <= u < n);
        assert(crate::petgraph_link::covered(s, u));
        let (cu, ku) = choose|c: int, k: int|
            0 <= c < s.len() && 0 <= k < s[c]@.len() && ((#[trigger] s[c]@[k]) as int) == u;
        assert(comp_set(s[cu]@) =~= sset) by {
            assert forall|w: int| comp_set(s[cu]@).contains(w) implies sset.contains(w) by {
                let kw = choose|k: int|
                    0 <= k < s[cu]@.len() && ((#[trigger] s[cu]@[k]) as int) == w;
                assert(same_scc(es, s[cu]@[ku] as int, s[cu]@[kw] as int));
                assert((s[cu]@[kw] as int) < n);
                assert(same_scc(es, u, w));
            }
            assert forall|w: int| sset.contains(w) implies comp_set(s[cu]@).contains(w) by {
                assert(same_scc(es, u, w));
                assert(same_scc(es, s[cu]@[ku] as int, w));
                assert(0 <= w < n);
                let k2 = choose|k2: int|
                    0 <= k2 < s[cu]@.len() && ((#[trigger] s[cu]@[k2]) as int) == w;
                assert(comp_set(s[cu]@).contains(w));
            }
        }
        assert(comp_set(s[cu]@).contains(x));
        let kx = choose|k: int| 0 <= k < s[cu]@.len() && ((#[trigger] s[cu]@[k]) as int) == x;
        assert(kx != ku);
        assert(s[cu]@.len() > 1);
        let t = choose|t: int| 0 <= t < r1.len() && (#[trigger] r1[t])@ == s[cu]@;
        assert(r[t] == r1[t]);
        assert(comp_set(r[t]@) == sset);
        assert(0 <= t < r.len() && r[t]@.len() > 1);
    }
    // every self-loop appears (given), and entries do not collide
    assert forall|c1: int, c2: int|
        0 <= c1 < c2 < r.len() && (#[trigger] r[c1])@.len() > 1 && (#[trigger] r[c2])@.len()
            > 1 implies comp_set(r[c1]@).disjoint(comp_set(r[c2]@)) by {
        assert(c1 < r1.len() && c2 < r1.len());
        assert(r[c1] == r1[c1] && r[c2] == r1[c2]);
        let cs1 = src[c1];
        let cs2 = src[c2];
        assert(cs1 < cs2);
        assert forall|x: int| comp_set(r[c1]@).contains(x) implies !comp_set(r[c2]@).contains(
            x,
        ) by {
            let k1 = choose|k: int|
                0 <= k < r[c1]@.len() && ((#[trigger] r[c1]@[k]) as int) == x;
            if comp_set(r[c2]@).contains(x) {
                let k2 = choose|k: int|
                    0 <= k < r[c2]@.len() && ((#[trigger] r[c2]@[k]) as int) == x;
                assert(s[cs1]@[k1] == s[cs2]@[k2]);
                assert(false);
            }
        }
    }
}

/// Build the dependency graph of the workspace: one node per workspace
/// package, and an edge for every declared dependency whose name
/// resolves (through the first universe package of that name) to the
/// identifier of a workspace package.  Dependencies on packages outside
/// the workspace are ignored.
pub fn build_graph(workspace: &Vec<Package>, universe: &Vec<Package>) -> (g: DependencyGraph)
    requires
        distinct_ids(views(workspace@)),
        views(workspace@).len() + total_deps(views(workspace@)) < 0xFFFF_FFFE,
    ensures
        g.wf(),
        g.node_ids() == ids_of(views(workspace@)),
        forall|a: int, b: int| #[trigger]
            g.edge_set().contains((a, b)) <==> dep_edge(views(workspace@), views(universe@), a, b),
{
    let ghost wsv = views(workspace@);
    let ghost univ = views(universe@);
    let mut graph = graph_new();
    let mut ids: Vec<String> = Vec::new();
    let mut i: usize = 0;
    while i < workspace.len()
        invariant
            wsv == views(workspace@),
            i <= workspace@.len(),
            wsv.len() + total_deps(wsv) < 0xFFFF_FFFE,
            graph_nodes(graph) == i as nat,
            graph_edges(graph) == Multiset::<(int, int)>::empty(),
            ids@.len() == i,
            forall|m: int| 0 <= m < i ==> #[trigger] ids@[m]@ == wsv[m].id,
        decreases workspace@.len() - i,
    {
        let _ = graph_add_node(&mut graph);
        proof {
            assert(views(workspace@)[i as int] == workspace@[i as int]@);
        }
        ids.push(workspace[i].id.clone());
        i += 1;
    }
    let n = workspace.len();
    let mut i: usize = 0;
    while i < n
        invariant
            wsv == views(workspace@),
            univ == views(universe@),
            distinct_ids(wsv),
            n == workspace@.len(),
            i <= n,
            wsv.len() + total_deps(wsv) < 0xFFFF_FFFE,
            graph_nodes(graph) == n as nat,
            graph_edges(graph).len() <= total_deps(wsv.take(i as int)),
            ids@.len() == n,
            forall|m: int| 0 <= m < n ==> #[trigger] ids@[m]@ == wsv[m].id,
            forall|a: int, b: int| #[trigger]
                graph_edge_set(graph).contains((a, b)) <==> dep_edge_before(
                    wsv,
                    univ,
                    i as int,
                    0,
                    a,
                    b,
                ),
        decreases n - i,
    {
        let deps_len = workspace[i].deps.len();
        proof {
            assert(views(workspace@)[i as int] == workspace@[i as int]@);
        }
        let mut d: usize = 0;
        while d < deps_len
            invariant
                wsv == views(workspace@),
                univ == views(universe@),
                distinct_ids(wsv),
                n == workspace@.len(),
                i < n,
                deps_len == wsv[i as int].deps.len(),
                d <= deps_len,
                wsv.len() + total_deps(wsv) < 0xFFFF_FFFE,
                graph_nodes(graph) == n as nat,
                graph_edges(graph).len() <= total_deps(wsv.take(i as int)) + d,
                ids@.len() == n,
                forall|m: int| 0 <= m < n ==> #[trigger] ids@[m]@ == wsv[m].id,
                forall|a: int, b: int| #[trigger]
                    graph_edge_set(graph).contains((a, b)) <==> dep_edge_before(
                        wsv,
                        univ,
                        i as int,
                        d as int,
                        a,
                        b,
                    ),
            decreases deps_len - d,
        {
            let ghost es0 = graph_edge_set(graph);
            let ghost ems0 = graph_edges(graph);
            proof {
                assert(views(workspace@)[i as int] == workspace@[i as int]@);
            }
            let dep_name = &workspace[i].deps[d];
            proof {
                assert(wsv[i as int].deps[d as int] == workspace@[i as int].deps@.map_values(
                    |s: String| s@,
                )[d as int]);
                assert(wsv[i as int].deps[d as int] == dep_name@);
            }
            match find_by_name(universe, dep_name) {
                Some(k) => {
                    proof {
                        assert(views(universe@)[k as int] == universe@[k as int]@);
                    }
                    let target_id = &universe[k].id;
                    match find_by_id(workspace, target_id) {
                        Some(j) => {
                            proof {
                                lemma_total_deps_take_step(wsv, i as int);
                                lemma_total_deps_take_le(wsv, i as int + 1);
                            }
                            graph_add_edge(&mut graph, i, j);
                            proof {
                                assert(graph_edges(graph) == ems0.insert((i as int, j as int)));
                                assert forall|a: int, b: int| #[trigger]
                                    graph_edge_set(graph).contains((a, b)) <==> ((a, b) == (
                                    i as int,
                                    j as int,
                                ) || es0.contains((a, b))) by {
                                    if (a, b) == (i as int, j as int) {
                                        assert(graph_edges(graph).count((a, b)) == ems0.count(
                                            (a, b),
                                        ) + 1);
                                    } else {
                                        assert(graph_edges(graph).count((a, b)) == ems0.count(
                                            (a, b),
                                        ));
                                    }
                                }
                                lemma_edge_update(
                                    es0,
                                    graph_edge_set(graph),
                                    wsv,
                                    univ,
                                    i as int,
                                    d as int,
                                    k as int,
                                    j as int,
                                );
                            }
                        },
                        None => {
                            proof {
                                assert forall|a: int, b: int| #[trigger]
                                    graph_edge_set(graph).contains((a, b)) <==> dep_edge_before(
                                        wsv,
                                        univ,
                                        i as int,
                                        d as int + 1,
                                        a,
                                        b,
                                    ) by {
                                    if dep_edge_before(wsv, univ, i as int, d as int + 1, a, b) {
                                        let (dd, kk) = choose|dd: int, kk: int|
                                            0 <= dd < wsv[a].deps.len() && (a < i as int || (a
                                                == i as int && dd < d as int + 1))
                                                && #[trigger] first_with_name(
                                                univ,
                                                wsv[a].deps[dd],
                                                kk,
                                            ) && univ[kk].id == wsv[b].id;
                                        if a == i as int && dd == d as int {
                                            lemma_first_with_name_unique(
                                                univ,
                                                wsv[a].deps[dd],
                                                kk,
                                                k as int,
                                            );
                                            assert(views(workspace@)[b] == workspace@[b]@);
                                            assert(false);
                                        } else {
                                            assert(dep_edge_before(
                                                wsv,
                                                univ,
                                                i as int,
                                                d as int,
                                                a,
                                                b,
                                            ));
                                        }
                                    }
                                    if graph_edge_set(graph).contains((a, b)) {
                                        let (dd, kk) = choose|dd: int, kk: int|
                                            0 <= dd < wsv[a].deps.len() && (a < i as int || (a
                                                == i as int && dd < d as int))
                                                && #[trigger] first_with_name(
                                                univ,
                                                wsv[a].deps[dd],
                                                kk,
                                            ) && univ[kk].id == wsv[b].id;
                                        assert(first_with_name(univ, wsv[a].deps[dd], kk));
                                        assert(dep_edge_before(
                                            wsv,
                                            univ,
                                            i as int,
                                            d as int + 1,
                                            a,
                                            b,
                                        ));
                                    }
                                }
                            }
                        },
                    }
                },
                None => {
                    proof {
                        assert forall|a: int, b: int| #[trigger]
                            graph_edge_set(graph).contains((a, b)) <==> dep_edge_before(
                                wsv,
                                univ,
                                i as int,
                                d as int + 1,
                                a,
                                b,
                            ) by {
                            if dep_edge_before(wsv, univ, i as int, d as int + 1, a, b) {
                                let (dd, kk) = choose|dd: int, kk: int|
                                    0 <= dd < wsv[a].deps.len() && (a < i as int || (a == i as int
                                        && dd < d as int + 1)) && #[trigger] first_with_name(
                                        univ,
                                        wsv[a].deps[dd],
                                        kk,
                                    ) && univ[kk].id == wsv[b].id;
                                if a == i as int && dd == d as int {
                                    assert(univ[kk].name == dep_name@);
                                    assert(false);
                                } else {
                                    assert(dep_edge_before(wsv, univ, i as int, d as int, a, b));
                                }
                            }
                            if graph_edge_set(graph).contains((a, b)) {
                                let (dd, kk) = choose|dd: int, kk: int|
                                    0 <= dd < wsv[a].deps.len() && (a < i as int || (a == i as int
                                        && dd < d as int)) && #[trigger] first_with_name(
                                        univ,
                                        wsv[a].deps[dd],
                                        kk,
                                    ) && univ[kk].id == wsv[b].id;
                                assert(first_with_name(univ, wsv[a].deps[dd], kk));
                                assert(dep_edge_before(wsv, univ, i as int, d as int + 1, a, b));
                            }
                        }
                    }
                },
            }
            d += 1;
        }
        proof {
            lemma_total_deps_take_step(wsv, i as int);
            assert forall|a: int, b: int| #[trigger]
                graph_edge_set(graph).contains((a, b)) <==> dep_edge_before(
                    wsv,
                    univ,
                    i as int + 1,
                    0,
                    a,
                    b,
                ) by {
                if dep_edge_before(wsv, univ, i as int + 1, 0, a, b) {
                    let (dd, kk) = choose|dd: int, kk: int|
                        0 <= dd < wsv[a].deps.len() && (a < i as int + 1 || (a == i as int + 1 && dd
                            < 0)) && #[trigger] first_with_name(univ, wsv[a].deps[dd], kk)
                            && univ[kk].id == wsv[b].id;
                    assert(dep_edge_before(wsv, univ, i as int, deps_len as int, a, b));
                }
                if graph_edge_set(graph).contains((a, b)) {
                    let (dd, kk) = choose|dd: int, kk: int|
                        0 <= dd < wsv[a].deps.len() && (a < i as int || (a == i as int && dd
                            < deps_len as int)) && #[trigger] first_with_name(
                            univ,
                            wsv[a].deps[dd],
                            kk,
                        ) && univ[kk].id == wsv[b].id;
                    assert(first_with_name(univ, wsv[a].deps[dd], kk));
                    assert(dep_edge_before(wsv, univ, i as int + 1, 0, a, b));
                }
            }
        }
        i += 1;
    }
    let g = DependencyGraph { graph, ids };
    proof {
        assert(g.node_ids() =~= ids_of(wsv));
        assert forall|a: int, b: int| #[trigger]
            g.edge_set().contains((a, b)) <==> dep_edge(wsv, univ, a, b) by {
            if dep_edge(wsv, univ, a, b) {
                let (dd, kk) = choose|dd: int, kk: int|
                    0 <= dd < wsv[a].deps.len() && #[trigger] first_with_name(
                        univ,
                        wsv[a].deps[dd],
                        kk,
                    ) && univ[kk].id == wsv[b].id;
                assert(first_with_name(univ, wsv[a].deps[dd], kk));
                assert(dep_edge_before(wsv, univ, n as int, 0, a, b));
            }
            if g.edge_set().contains((a, b)) {
                let (dd, kk) = choose|dd: int, kk: int|
                    0 <= dd < wsv[a].deps.len() && (a < n as int || (a == n as int && dd < 0))
                        && #[trigger] first_with_name(univ, wsv[a].deps[dd], kk) && univ[kk].id
                        == wsv[b].id;
                assert(first_with_name(univ, wsv[a].deps[dd], kk));
                assert(dep_edge(wsv, univ, a, b));
            }
        }
    }
    g
}

/// After one edge `(i, j)` was added for declaration `d` of member `i`,
/// whose name's first universe match is position `k`, the edge set
/// matches the declarations up to `d + 1`.
proof fn lemma_edge_update(
    es0: Set<(int, int)>,
    es1: Set<(int, int)>,
    ws: Seq<PackageView>,
    uni: Seq<PackageView>,
    i: int,
    d: int,
    k: int,
    j: int,
)
    requires
        distinct_ids(ws),
        0 <= i < ws.len(),
        0 <= d < ws[i].deps.len(),
        first_with_name(uni, ws[i].deps[d], k),
        0 <= j < ws.len(),
        ws[j].id == uni[k].id,
        forall|a: int, b: int| #[trigger]
            es0.contains((a, b)) <==> dep_edge_before(ws, uni, i, d, a, b),
        forall|a: int, b: int| #[trigger]
            es1.contains((a, b)) <==> ((a, b) == (i, j) || es0.contains((a, b))),
    ensures
        forall|a: int, b: int| #[trigger]
            es1.contains((a, b)) <==> dep_edge_before(ws, uni, i, d + 1, a, b),
{
    assert forall|a: int, b: int| #[trigger]
        es1.contains((a, b)) <==> dep_edge_before(ws, uni, i, d + 1, a, b) by {
        if es1.contains((a, b)) {
            if (a, b) == (i, j) {
                assert(first_with_name(uni, ws[i].deps[d], k));
                assert(dep_edge_before(ws, uni, i, d + 1, i, j));
            } else {
                let (dd, kk) = choose|dd: int, kk: int|
                    0 <= dd < ws[a].deps.len() && (a < i || (a == i && dd < d))
                        && #[trigger] first_with_name(uni, ws[a].deps[dd], kk) && uni[kk].id
                        == ws[b].id;
                assert(first_with_name(uni, ws[a].deps[dd], kk));
                assert(dep_edge_before(ws, uni, i, d + 1, a, b));
            }
        }
        if dep_edge_before(ws, uni, i, d + 1, a, b) {
            let (dd, kk) = choose|dd: int, kk: int|
                0 <= dd < ws[a].deps.len() && (a < i || (a == i && dd < d + 1))
                    && #[trigger] first_with_name(uni, ws[a].deps[dd], kk) && uni[kk].id
                    == ws[b].id;
            if a == i && dd == d {
                lemma_first_with_name_unique(uni, ws[a].deps[dd], kk, k);
                assert(ws[b].id == ws[j].id);
                assert(b == j);
                assert(es1.contains((i, j)));
            } else {
                assert(first_with_name(uni, ws[a].deps[dd], kk));
                assert(dep_edge_before(ws, uni, i, d, a, b));
                assert(es0.contains((a, b)));
            }
        }
    }
}

} // verus!
