//! General properties of the detector, proved once and for all: an
//! edgeless graph yields no cycles, a mutual pair yields exactly one
//! two-member cycle, a self-dependency is always reported, reported
//! cycles name workspace members only, the reported member sets are a
//! function of the graph alone, and a rendered cycle starts and ends
//! with the same name.

use vstd::prelude::*;

use crate::detect::{comp_set, detection_ok, detects, named_of, no_dup};
use crate::graph::dep_edge_set;
use crate::package::PackageView;
use crate::reach::{
    is_scc_set, lemma_edge_reaches, lemma_reach_target, lemma_reaches_self, same_scc,
};
use crate::render::{display_name, joined, lemma_joined_push, names_of, render_cycle, sep};

verus! {

/// The member sets of the entries of a cycle list.
pub open spec fn comp_family(r: Seq<Vec<usize>>) -> Set<Set<int>> {
    Set::new(|s: Set<int>| exists|c: int| 0 <= c < r.len() && comp_set((#[trigger] r[c])@) == s)
}

/// A graph with no edges has no cycles: on an empty edge set, a right
/// cycle list is empty.
pub proof fn lemma_no_edges_no_cycles(es: Set<(int, int)>, n: int, r: Seq<Vec<usize>>)
    requires
        detection_ok(es, n, r),
        es == Set::<(int, int)>::empty(),
    ensures
        r.len() == 0,
{
    if r.len() > 0 {
        assert(r[0]@.len() >= 1);
        if r[0]@.len() == 1 {
            assert(es.contains((r[0]@[0] as int, r[0]@[0] as int)));
            assert(false);
        } else {
            assert(no_dup(r[0]@) && is_scc_set(es, n, comp_set(r[0]@)));
            let u = r[0]@[0] as int;
            let v = r[0]@[1] as int;
            assert(r[0]@[0] != r[0]@[1]);
            assert(comp_set(r[0]@).contains(u));
            assert(comp_set(r[0]@).contains(v));
            assert(same_scc(es, u, v));
            lemma_reach_target(es, u, v, Set::<int>::empty());
            assert(false);
        }
    }
}

/// A declared self-dependency is always reported as a one-member
/// cycle, whatever else the graph holds.
pub proof fn lemma_self_dependency_reported(
    es: Set<(int, int)>,
    n: int,
    r: Seq<Vec<usize>>,
    v: int,
)
    requires
        detection_ok(es, n, r),
        0 <= v < n,
        es.contains((v, v)),
    ensures
        exists|c: int| 0 <= c < r.len() && (#[trigger] r[c])@.len() == 1 && r[c]@[0] as int == v,
{
}

/// Two nodes that depend on each other, in a graph with no other
/// edges, yield exactly one cycle, whose member set is the pair.
pub proof fn lemma_mutual_pair_single_cycle(
    es: Set<(int, int)>,
    n: int,
    r: Seq<Vec<usize>>,
    a: int,
    b: int,
)
    requires
        detection_ok(es, n, r),
        0 <= a < n,
        0 <= b < n,
        a != b,
        es == set![(a, b), (b, a)],
    ensures
        r.len() == 1,
        comp_set(r[0]@) == set![a, b],
{
    let s = set![a, b];
    assert(s.contains(a) && s.contains(b));
    assert(es.contains((a, b)) && es.contains((b, a)));
    lemma_edge_reaches(es, a, b);
    lemma_edge_reaches(es, b, a);
    lemma_reaches_self(es, a);
    lemma_reaches_self(es, b);
    assert forall|u: int, w: int|
        s.contains(u) && 0 <= w < n && #[trigger] same_scc(es, u, w) implies s.contains(w) by {
        lemma_reach_target(es, u, w, s);
    }
    assert(is_scc_set(es, n, s));
    assert(is_scc_set(es, n, s) && s.contains(a) && s.contains(b) && a != b);
    let c0 = choose|c: int|
        0 <= c < r.len() && (#[trigger] r[c])@.len() > 1 && comp_set(r[c]@) == s;
    assert forall|c: int| 0 <= c < r.len() implies (#[trigger] r[c])@.len() > 1 by {
        if r[c]@.len() == 1 {
            let x = r[c]@[0] as int;
            assert(es.contains((x, x)));
            assert(false);
        } else {
            assert(r[c]@.len() >= 1);
        }
    }
    if r.len() >= 2 {
        let c1: int = if c0 == 0 {
            1
        } else {
            0
        };
        assert(r[c1]@.len() > 1);
        assert(no_dup(r[c1]@) && is_scc_set(es, n, comp_set(r[c1]@)));
        let t = comp_set(r[c1]@);
        let u = r[c1]@[0] as int;
        let x = r[c1]@[1] as int;
        assert(r[c1]@[0] != r[c1]@[1]);
        assert(t.contains(u) && t.contains(x));
        assert(same_scc(es, u, x));
        lemma_reach_target(es, u, x, s);
        lemma_reach_target(es, x, u, s);
        assert(s.contains(u) && s.contains(x));
        assert(t.contains(a) && t.contains(b));
        if c0 < c1 {
            assert(comp_set(r[c0]@).disjoint(comp_set(r[c1]@)));
        } else {
            assert(comp_set(r[c1]@).disjoint(comp_set(r[c0]@)));
        }
        assert(comp_set(r[c0]@).contains(a));
        assert(false);
    }
    assert(c0 == 0);
}

/// Dependencies on packages outside the workspace are never included
/// in any edge: the edge relation only ever connects two workspace
/// positions.
pub proof fn lemma_edges_within_workspace(ws: Seq<PackageView>, uni: Seq<PackageView>)
    ensures
        forall|a: int, b: int| #[trigger]
            dep_edge_set(ws, uni).contains((a, b)) ==> 0 <= a < ws.len() && 0 <= b < ws.len(),
{
}

/// Dependencies on packages outside the workspace never show up:
/// every identifier in a detected cycle list belongs to a workspace
/// package.
pub proof fn lemma_cycles_name_workspace_members(
    ws: Seq<PackageView>,
    uni: Seq<PackageView>,
    r: Seq<Vec<String>>,
)
    requires
        detects(ws, uni, r),
    ensures
        forall|c: int, k: int|
            0 <= c < r.len() && 0 <= k < (#[trigger] r[c])@.len() ==> exists|i: int|
                0 <= i < ws.len() && ws[i].id == (#[trigger] r[c]@[k])@,
{
    let ix = choose|ix: Seq<Vec<usize>>|
        #[trigger] detection_ok(dep_edge_set(ws, uni), ws.len() as int, ix) && named_of(
            ws,
            ix,
            r,
        );
    assert forall|c: int, k: int|
        0 <= c < r.len() && 0 <= k < (#[trigger] r[c])@.len() implies exists|i: int|
        0 <= i < ws.len() && ws[i].id == (#[trigger] r[c]@[k])@ by {
        let i = ix[c]@[k] as int;
        assert(0 <= i < ws.len());
        assert(r[c]@[k]@ == ws[i].id);
    }
}

/// The reported member sets are a function of the graph alone: two
/// right cycle lists for one graph list the same family of sets,
/// whatever order the detector produced them in.
pub proof fn lemma_detection_deterministic(
    es: Set<(int, int)>,
    n: int,
    r1: Seq<Vec<usize>>,
    r2: Seq<Vec<usize>>,
)
    requires
        detection_ok(es, n, r1),
        detection_ok(es, n, r2),
    ensures
        comp_family(r1) == comp_family(r2),
{
    lemma_family_subset(es, n, r1, r2);
    lemma_family_subset(es, n, r2, r1);
    assert(comp_family(r1) =~= comp_family(r2));
}

proof fn lemma_family_subset(es: Set<(int, int)>, n: int, ra: Seq<Vec<usize>>, rb: Seq<Vec<usize>>)
    requires
        detection_ok(es, n, ra),
        detection_ok(es, n, rb),
    ensures
        forall|s: Set<int>| comp_family(ra).contains(s) ==> comp_family(rb).contains(s),
{
    assert forall|s: Set<int>| comp_family(ra).contains(s) implies comp_family(rb).contains(
        s,
    ) by {
        let c = choose|c: int| 0 <= c < ra.len() && comp_set((#[trigger] ra[c])@) == s;
        if ra[c]@.len() == 1 {
            let x = ra[c]@[0] as int;
            assert(es.contains((x, x)));
            assert(0 <= x < n);
            let c2 = choose|c2: int|
                0 <= c2 < rb.len() && (#[trigger] rb[c2])@.len() == 1 && rb[c2]@[0] as int == x;
            assert(comp_set(rb[c2]@) =~= s) by {
                assert(ra[c]@[0] as int == x);
                assert(rb[c2]@[0] as int == x);
                assert forall|y: int| comp_set(rb[c2]@).contains(y) implies s.contains(y) by {
                    let k = choose|k: int|
                        0 <= k < rb[c2]@.len() && ((#[trigger] rb[c2]@[k]) as int) == y;
                    assert(y == x);
                    assert(comp_set(ra[c]@).contains(x));
                }
                assert forall|y: int| s.contains(y) implies comp_set(rb[c2]@).contains(y) by {
                    let k = choose|k: int|
                        0 <= k < ra[c]@.len() && ((#[trigger] ra[c]@[k]) as int) == y;
                    assert(y == x);
                    assert(comp_set(rb[c2]@).contains(x));
                }
            }
            assert(comp_family(rb).contains(s));
        } else {
            assert(ra[c]@.len() > 1);
            assert(no_dup(ra[c]@) && is_scc_set(es, n, comp_set(ra[c]@)));
            let u = ra[c]@[0] as int;
            let v = ra[c]@[1] as int;
            assert(ra[c]@[0] != ra[c]@[1]);
            assert(comp_set(ra[c]@).contains(u));
            assert(comp_set(ra[c]@).contains(v));
            assert(is_scc_set(es, n, s) && s.contains(u) && s.contains(v) && u != v);
            let c2 = choose|c2: int|
                0 <= c2 < rb.len() && (#[trigger] rb[c2])@.len() > 1 && comp_set(rb[c2]@) == s;
            assert(comp_family(rb).contains(s));
        }
    }
}

/// A rendered cycle is a closed path: the text begins with the display
/// name of the first member and ends with that same name.
pub proof fn lemma_render_closed(ids: Seq<Seq<char>>, uni: Seq<PackageView>)
    requires
        ids.len() >= 1,
    ensures
        render_cycle(ids, uni).len() >= display_name(uni, ids[0]).len(),
        render_cycle(ids, uni).take(display_name(uni, ids[0]).len() as int) == display_name(
            uni,
            ids[0],
        ),
        render_cycle(ids, uni).skip(
            render_cycle(ids, uni).len() - display_name(uni, ids[0]).len(),
        ) == display_name(uni, ids[0]),
{
    let ns = names_of(ids, uni);
    let n0 = display_name(uni, ids[0]);
    assert(ns.len() == ids.len());
    assert(ns[0] == n0);
    lemma_joined_push(ns, ns[0]);
    assert(render_cycle(ids, uni) == joined(ns) + sep() + n0);
    let whole = joined(ns) + sep() + n0;
    assert(whole.skip(whole.len() - n0.len()) =~= n0);
    if ns.len() == 1 {
        assert(joined(ns) == n0);
        assert(whole.take(n0.len() as int) =~= n0);
    } else {
        assert(joined(ns) == ns[0] + sep() + joined(ns.drop_first()));
        assert(whole.take(n0.len() as int) =~= n0);
    }
}

} // verus!
