//! Order independence of the detector.  The dependency relation, read
//! over package identifiers instead of positions, does not depend on
//! the order of the input lists; and the family of member sets that a
//! detection run reports is fully characterized by that relation.  Put
//! together: permuting the workspace and the package universe leaves
//! the set of detected cycles unchanged.

use vstd::prelude::*;

use crate::detect::{comp_set, detection_ok, detects, named_of, no_dup};
use crate::graph::{dep_edge, dep_edge_set};
use crate::package::{distinct_ids, distinct_names, first_with_name, PackageView};
use crate::reach::{is_path, is_scc_set, reaches, same_scc};

verus! {

/// `x` is the identifier of a workspace member.
pub open spec fn is_ws_id(ws: Seq<PackageView>, x: Seq<char>) -> bool {
    exists|i: int| 0 <= i < ws.len() && (#[trigger] ws[i]).id == x
}

/// The dependency relation over identifiers: the workspace member with
/// identifier `x` declares a dependency whose name resolves, via the
/// first universe package of that name, to identifier `y`, itself the
/// identifier of a workspace member.
pub open spec fn id_edge(ws: Seq<PackageView>, uni: Seq<PackageView>, x: Seq<char>, y: Seq<char>) -> bool {
    &&& is_ws_id(ws, x)
    &&& is_ws_id(ws, y)
    &&& exists|a: int, d: int, k: int|
        0 <= a < ws.len() && ws[a].id == x && 0 <= d < ws[a].deps.len()
            && #[trigger] first_with_name(uni, ws[a].deps[d], k) && uni[k].id == y
}

/// A walk through the identifier-level dependency relation.
pub open spec fn is_id_path(ws: Seq<PackageView>, uni: Seq<PackageView>, p: Seq<Seq<char>>) -> bool {
    &&& p.len() >= 1
    &&& forall|m: int| 0 <= m < p.len() - 1 ==> id_edge(ws, uni, (#[trigger] p[m]), p[m + 1])
}

/// Identifier `y` is reachable from identifier `x` along declared
/// dependencies.
pub open spec fn id_reaches(ws: Seq<PackageView>, uni: Seq<PackageView>, x: Seq<char>, y: Seq<char>) -> bool {
    exists|p: Seq<Seq<char>>| is_id_path(ws, uni, p) && p.first() == x && p.last() == y
}

/// The two identifiers lie on a common dependency cycle.
pub open spec fn id_same_scc(ws: Seq<PackageView>, uni: Seq<PackageView>, x: Seq<char>, y: Seq<char>) -> bool {
    id_reaches(ws, uni, x, y) && id_reaches(ws, uni, y, x)
}

/// `s` is a strongly connected component of the identifier-level
/// dependency relation.
pub open spec fn id_scc_set(ws: Seq<PackageView>, uni: Seq<PackageView>, s: Set<Seq<char>>) -> bool {
    &&& forall|x: Seq<char>| s.contains(x) ==> is_ws_id(ws, x)
    &&& forall|x: Seq<char>, y: Seq<char>|
        s.contains(x) && s.contains(y) ==> id_same_scc(ws, uni, x, y)
    &&& forall|x: Seq<char>, y: Seq<char>|
        s.contains(x) && is_ws_id(ws, y) && #[trigger] id_same_scc(ws, uni, x, y) ==> s.contains(
            y,
        )
}

/// The set of identifiers one reported cycle lists.
pub open spec fn cycle_id_set(row: Vec<String>) -> Set<Seq<char>> {
    Set::new(|x: Seq<char>| exists|k: int| 0 <= k < row@.len() && ((#[trigger] row@[k])@) == x)
}

/// The family of identifier sets of a reported cycle list.
pub open spec fn id_family(r: Seq<Vec<String>>) -> Set<Set<Seq<char>>> {
    Set::new(
        |s: Set<Seq<char>>| exists|c: int| 0 <= c < r.len() && cycle_id_set(#[trigger] r[c]) == s,
    )
}

/// The identifier sets a detection run must report: the components of
/// the identifier-level relation with at least two members, and the
/// single identifiers with a direct self-dependency.
pub open spec fn good_cycle_set(ws: Seq<PackageView>, uni: Seq<PackageView>, s: Set<Seq<char>>) -> bool {
    ||| (id_scc_set(ws, uni, s) && exists|x: Seq<char>, y: Seq<char>|
        s.contains(x) && s.contains(y) && x != y)
    ||| (exists|x: Seq<char>| s == set![x] && #[trigger] id_edge(ws, uni, x, x))
}

/// The position of the workspace member with identifier `x`.
pub open spec fn idx_of(ws: Seq<PackageView>, x: Seq<char>) -> int {
    choose|i: int| 0 <= i < ws.len() && ws[i].id == x
}

proof fn lemma_first_exists_below(uni: Seq<PackageView>, nm: Seq<char>, k: int)
    requires
        0 <= k < uni.len(),
        uni[k].name == nm,
    ensures
        exists|k0: int| #[trigger] first_with_name(uni, nm, k0),
    decreases k,
{
    if forall|m: int| 0 <= m < k ==> (#[trigger] uni[m]).name != nm {
        assert(first_with_name(uni, nm, k));
    } else {
        let m = choose|m: int| 0 <= m < k && (#[trigger] uni[m]).name == nm;
        lemma_first_exists_below(uni, nm, m);
    }
}

proof fn lemma_dep_to_id(ws: Seq<PackageView>, uni: Seq<PackageView>, a: int, b: int)
    requires
        dep_edge(ws, uni, a, b),
    ensures
        id_edge(ws, uni, ws[a].id, ws[b].id),
{
    let (d, k) = choose|d: int, k: int|
        0 <= d < ws[a].deps.len() && #[trigger] first_with_name(uni, ws[a].deps[d], k)
            && uni[k].id == ws[b].id;
    assert(first_with_name(uni, ws[a].deps[d], k));
    assert((#[trigger] ws[a]).id == ws[a].id);
    assert((#[trigger] ws[b]).id == ws[b].id);
}

proof fn lemma_id_to_dep(ws: Seq<PackageView>, uni: Seq<PackageView>, x: Seq<char>, b: int)
    requires
        distinct_ids(ws),
        id_edge(ws, uni, x, ws[b].id),
        0 <= b < ws.len(),
    ensures
        exists|a: int| 0 <= a < ws.len() && (#[trigger] ws[a]).id == x && dep_edge(ws, uni, a, b),
{
    let (a, d, k) = choose|a: int, d: int, k: int|
        0 <= a < ws.len() && ws[a].id == x && 0 <= d < ws[a].deps.len()
            && #[trigger] first_with_name(uni, ws[a].deps[d], k) && uni[k].id == ws[b].id;
    assert(first_with_name(uni, ws[a].deps[d], k));
    assert(dep_edge(ws, uni, a, b));
}

#[verifier::rlimit(100)]
proof fn lemma_reaches_to_id(ws: Seq<PackageView>, uni: Seq<PackageView>, a: int, b: int)
    requires
        0 <= a < ws.len(),
        0 <= b < ws.len(),
        reaches(dep_edge_set(ws, uni), a, b),
    ensures
        id_reaches(ws, uni, ws[a].id, ws[b].id),
{
    let es = dep_edge_set(ws, uni);
    let p = choose|p: Seq<int>| is_path(es, p) && p.first() == a && p.last() == b;
    assert forall|m: int| 0 <= m < p.len() implies 0 <= #[trigger] p[m] < ws.len() by {
        if m > 0 {
            assert(es.contains((p[m - 1], p[m])));
            assert(dep_edge(ws, uni, p[m - 1], p[m]));
        }
    }
    let q = p.map_values(|v: int| ws[v].id);
    assert forall|m: int| 0 <= m < q.len() - 1 implies id_edge(
        ws,
        uni,
        (#[trigger] q[m]),
        q[m + 1],
    ) by {
        assert(es.contains((p[m], p[m + 1])));
        assert(dep_edge(ws, uni, p[m], p[m + 1]));
        lemma_dep_to_id(ws, uni, p[m], p[m + 1]);
    }
    assert(is_id_path(ws, uni, q));
    assert(q.first() == ws[a].id && q.last() == ws[b].id);
}

proof fn lemma_id_to_reaches(ws: Seq<PackageView>, uni: Seq<PackageView>, a: int, b: int)
    requires
        distinct_ids(ws),
        0 <= a < ws.len(),
        0 <= b < ws.len(),
        id_reaches(ws, uni, ws[a].id, ws[b].id),
    ensures
        reaches(dep_edge_set(ws, uni), a, b),
{
    let es = dep_edge_set(ws, uni);
    let q = choose|q: Seq<Seq<char>>|
        is_id_path(ws, uni, q) && q.first() == ws[a].id && q.last() == ws[b].id;
    assert forall|m: int| 0 <= m < q.len() implies is_ws_id(ws, #[trigger] q[m]) by {
        if m == 0 {
            assert((#[trigger] ws[a]).id == q[0]);
        } else {
            assert(id_edge(ws, uni, q[m - 1], q[m]));
        }
    }
    let p = q.map_values(|z: Seq<char>| idx_of(ws, z));
    assert forall|m: int| 0 <= m < q.len() implies 0 <= #[trigger] p[m] < ws.len() && ws[p[
        m
    ]].id == q[m] by {
        assert(is_ws_id(ws, q[m]));
        let i = choose|i: int| 0 <= i < ws.len() && ws[i].id == q[m];
        assert(p[m] == idx_of(ws, q[m]));
    }
    assert forall|m: int| 0 <= m < p.len() - 1 implies es.contains(
        ((#[trigger] p[m]), p[m + 1]),
    ) by {
        assert(id_edge(ws, uni, q[m], q[m + 1]));
        assert(q[m + 1] == ws[p[m + 1]].id);
        lemma_id_to_dep(ws, uni, q[m], p[m + 1]);
        let a2 = choose|a2: int|
            0 <= a2 < ws.len() && (#[trigger] ws[a2]).id == q[m] && dep_edge(ws, uni, a2, p[m + 1]);
        assert(a2 == p[m]);
    }
    assert(is_path(es, p));
    assert(p.first() == a && p.last() == b);
}

proof fn lemma_same_scc_to_id(ws: Seq<PackageView>, uni: Seq<PackageView>, a: int, b: int)
    requires
        0 <= a < ws.len(),
        0 <= b < ws.len(),
        same_scc(dep_edge_set(ws, uni), a, b),
    ensures
        id_same_scc(ws, uni, ws[a].id, ws[b].id),
{
    lemma_reaches_to_id(ws, uni, a, b);
    lemma_reaches_to_id(ws, uni, b, a);
}

proof fn lemma_id_to_same_scc(ws: Seq<PackageView>, uni: Seq<PackageView>, a: int, b: int)
    requires
        distinct_ids(ws),
        0 <= a < ws.len(),
        0 <= b < ws.len(),
        id_same_scc(ws, uni, ws[a].id, ws[b].id),
    ensures
        same_scc(dep_edge_set(ws, uni), a, b),
{
    lemma_id_to_reaches(ws, uni, a, b);
    lemma_id_to_reaches(ws, uni, b, a);
}

#[verifier::rlimit(100)]
proof fn lemma_entry_good(
    ws: Seq<PackageView>,
    uni: Seq<PackageView>,
    ix: Seq<Vec<usize>>,
    r: Seq<Vec<String>>,
    s: Set<Seq<char>>,
)
    requires
        distinct_ids(ws),
        detection_ok(dep_edge_set(ws, uni), ws.len() as int, ix),
        named_of(ws, ix, r),
        id_family(r).contains(s),
    ensures
        good_cycle_set(ws, uni, s),
{
    let es = dep_edge_set(ws, uni);
    let n = ws.len() as int;
    let c = choose|c: int| 0 <= c < r.len() && cycle_id_set(#[trigger] r[c]) == s;
    assert(r[c]@.len() == ix[c]@.len());
    if ix[c]@.len() == 1 {
        let v = ix[c]@[0] as int;
        assert((ix[c]@[0] as int) < n);
        assert(es.contains((v, v)));
        assert(dep_edge(ws, uni, v, v));
        lemma_dep_to_id(ws, uni, v, v);
        let x = ws[v].id;
        assert(r[c]@[0]@ == x);
        assert(cycle_id_set(r[c]) =~= set![x]) by {
            assert forall|z: Seq<char>| cycle_id_set(r[c]).contains(z) implies set![x].contains(
                z,
            ) by {
                let k = choose|k: int| 0 <= k < r[c]@.len() && ((#[trigger] r[c]@[k])@) == z;
                assert(k == 0);
            }
            assert(cycle_id_set(r[c]).contains(x));
        }
        assert(s == set![x] && id_edge(ws, uni, x, x));
    } else {
        assert(ix[c]@.len() > 1);
        assert(no_dup(ix[c]@) && is_scc_set(es, n, comp_set(ix[c]@)));
        assert forall|x: Seq<char>| s.contains(x) implies is_ws_id(ws, x) by {
            let k = choose|k: int| 0 <= k < r[c]@.len() && ((#[trigger] r[c]@[k])@) == x;
            let u = ix[c]@[k] as int;
            assert((ix[c]@[k] as int) < n);
            assert((#[trigger] ws[u]).id == x);
        }
        assert forall|x: Seq<char>, y: Seq<char>|
            s.contains(x) && s.contains(y) implies id_same_scc(ws, uni, x, y) by {
            let k1 = choose|k: int| 0 <= k < r[c]@.len() && ((#[trigger] r[c]@[k])@) == x;
            let k2 = choose|k: int| 0 <= k < r[c]@.len() && ((#[trigger] r[c]@[k])@) == y;
            let u = ix[c]@[k1] as int;
            let v = ix[c]@[k2] as int;
            assert((ix[c]@[k1] as int) < n && (ix[c]@[k2] as int) < n);
            assert(same_scc(es, u, v));
            lemma_same_scc_to_id(ws, uni, u, v);
            assert(ws[u].id == x && ws[v].id == y);
        }
        assert forall|x: Seq<char>, y: Seq<char>|
            s.contains(x) && is_ws_id(ws, y) && #[trigger] id_same_scc(ws, uni, x, y) implies s
            .contains(y) by {
            let k1 = choose|k: int| 0 <= k < r[c]@.len() && ((#[trigger] r[c]@[k])@) == x;
            let u = ix[c]@[k1] as int;
            assert((ix[c]@[k1] as int) < n);
            assert(ws[u].id == x);
            let b = choose|i: int| 0 <= i < ws.len() && (#[trigger] ws[i]).id == y;
            lemma_id_to_same_scc(ws, uni, u, b);
            assert(comp_set(ix[c]@).contains(u));
            assert(same_scc(es, u, b));
            assert(comp_set(ix[c]@).contains(b));
            let k2 = choose|k: int| 0 <= k < ix[c]@.len() && ((#[trigger] ix[c]@[k]) as int) == b;
            assert(((#[trigger] r[c]@[k2])@) == ws[b].id);
            assert(cycle_id_set(r[c]).contains(y));
        }
        assert(id_scc_set(ws, uni, s));
        let u0 = ix[c]@[0] as int;
        let u1 = ix[c]@[1] as int;
        assert(ix[c]@[0] != ix[c]@[1]);
        assert((ix[c]@[0] as int) < n && (ix[c]@[1] as int) < n);
        assert(((#[trigger] r[c]@[0])@) == ws[u0].id);
        assert(((#[trigger] r[c]@[1])@) == ws[u1].id);
        assert(ws[u0].id != ws[u1].id);
        assert(cycle_id_set(r[c]).contains(ws[u0].id));
        assert(cycle_id_set(r[c]).contains(ws[u1].id));
        assert(s.contains(ws[u0].id) && s.contains(ws[u1].id));
    }
}

#[verifier::rlimit(100)]
proof fn lemma_good_present(
    ws: Seq<PackageView>,
    uni: Seq<PackageView>,
    ix: Seq<Vec<usize>>,
    r: Seq<Vec<String>>,
    s: Set<Seq<char>>,
)
    requires
        distinct_ids(ws),
        detection_ok(dep_edge_set(ws, uni), ws.len() as int, ix),
        named_of(ws, ix, r),
        good_cycle_set(ws, uni, s),
    ensures
        id_family(r).contains(s),
{
    let es = dep_edge_set(ws, uni);
    let n = ws.len() as int;
    if id_scc_set(ws, uni, s) && exists|x: Seq<char>, y: Seq<char>|
        s.contains(x) && s.contains(y) && x != y {
        let (x, y) = choose|x: Seq<char>, y: Seq<char>|
            s.contains(x) && s.contains(y) && x != y;
        let sidx = Set::new(|i: int| 0 <= i < ws.len() && s.contains(ws[i].id));
        assert forall|i: int, j: int| sidx.contains(i) && sidx.contains(j) implies same_scc(
            es,
            i,
            j,
        ) by {
            assert(id_same_scc(ws, uni, ws[i].id, ws[j].id));
            lemma_id_to_same_scc(ws, uni, i, j);
        }
        assert forall|i: int, w: int|
            sidx.contains(i) && 0 <= w < n && #[trigger] same_scc(es, i, w) implies sidx.contains(
            w,
        ) by {
            lemma_same_scc_to_id(ws, uni, i, w);
            assert((#[trigger] ws[w]).id == ws[w].id);
            assert(is_ws_id(ws, ws[w].id));
            assert(id_same_scc(ws, uni, ws[i].id, ws[w].id));
            assert(s.contains(ws[w].id));
        }
        assert(is_scc_set(es, n, sidx));
        assert(is_ws_id(ws, x));
        assert(is_ws_id(ws, y));
        let a = choose|i: int| 0 <= i < ws.len() && (#[trigger] ws[i]).id == x;
        let b = choose|i: int| 0 <= i < ws.len() && (#[trigger] ws[i]).id == y;
        assert(sidx.contains(a) && sidx.contains(b) && a != b);
        assert(is_scc_set(es, n, sidx) && sidx.contains(a) && sidx.contains(b) && a != b);
        let c = choose|c: int|
            0 <= c < ix.len() && (#[trigger] ix[c])@.len() > 1 && comp_set(ix[c]@) == sidx;
        assert(cycle_id_set(r[c]) =~= s) by {
            assert forall|z: Seq<char>| cycle_id_set(r[c]).contains(z) implies s.contains(z) by {
                let k = choose|k: int| 0 <= k < r[c]@.len() && ((#[trigger] r[c]@[k])@) == z;
                let u = ix[c]@[k] as int;
                assert(((#[trigger] ix[c]@[k]) as int) == u);
                assert(comp_set(ix[c]@).contains(u));
                assert(sidx.contains(u));
                assert(z == ws[u].id);
            }
            assert forall|z: Seq<char>| s.contains(z) implies cycle_id_set(r[c]).contains(z) by {
                assert(is_ws_id(ws, z));
                let i = choose|i: int| 0 <= i < ws.len() && (#[trigger] ws[i]).id == z;
                assert(sidx.contains(i));
                assert(comp_set(ix[c]@).contains(i));
                let k = choose|k: int|
                    0 <= k < ix[c]@.len() && ((#[trigger] ix[c]@[k]) as int) == i;
                assert(((#[trigger] r[c]@[k])@) == ws[i].id);
            }
        }
        assert(id_family(r).contains(s));
    } else {
        let x = choose|x: Seq<char>| s == set![x] && #[trigger] id_edge(ws, uni, x, x);
        let (a, d, k) = choose|a: int, d: int, k: int|
            0 <= a < ws.len() && ws[a].id == x && 0 <= d < ws[a].deps.len()
                && #[trigger] first_with_name(uni, ws[a].deps[d], k) && uni[k].id == x;
        assert(first_with_name(uni, ws[a].deps[d], k));
        assert(dep_edge(ws, uni, a, a));
        assert(es.contains((a, a)));
        let c = choose|c: int|
            0 <= c < ix.len() && (#[trigger] ix[c])@.len() == 1 && ix[c]@[0] as int == a;
        assert(cycle_id_set(r[c]) =~= set![x]) by {
            assert(((#[trigger] r[c]@[0])@) == ws[a].id);
            assert forall|z: Seq<char>| cycle_id_set(r[c]).contains(z) implies set![x].contains(
                z,
            ) by {
                let kk = choose|kk: int| 0 <= kk < r[c]@.len() && ((#[trigger] r[c]@[kk])@) == z;
                assert(kk == 0);
            }
            assert(cycle_id_set(r[c]).contains(x));
        }
        assert(id_family(r).contains(s));
    }
}

/// What a detection run reports, read as identifier sets, is exactly
/// the family of strongly connected components of the identifier-level
/// dependency relation with at least two members, together with the
/// single identifiers that depend on themselves.
pub proof fn lemma_family_characterized(
    ws: Seq<PackageView>,
    uni: Seq<PackageView>,
    r: Seq<Vec<String>>,
)
    requires
        distinct_ids(ws),
        detects(ws, uni, r),
    ensures
        forall|s: Set<Seq<char>>| #[trigger]
            id_family(r).contains(s) <==> good_cycle_set(ws, uni, s),
{
    let ix = choose|ix: Seq<Vec<usize>>|
        #[trigger] detection_ok(dep_edge_set(ws, uni), ws.len() as int, ix) && named_of(
            ws,
            ix,
            r,
        );
    assert forall|s: Set<Seq<char>>| #[trigger]
        id_family(r).contains(s) <==> good_cycle_set(ws, uni, s) by {
        if id_family(r).contains(s) {
            lemma_entry_good(ws, uni, ix, r, s);
        }
        if good_cycle_set(ws, uni, s) {
            lemma_good_present(ws, uni, ix, r, s);
        }
    }
}

proof fn lemma_index_in_perm(s1: Seq<PackageView>, s2: Seq<PackageView>, i: int)
    requires
        s1.to_multiset() == s2.to_multiset(),
        0 <= i < s1.len(),
    ensures
        exists|j: int| 0 <= j < s2.len() && (#[trigger] s2[j]) == s1[i],
{
    broadcast use vstd::seq_lib::group_to_multiset_ensures;

    assert(s1.contains(s1[i]));
    assert(s2.to_multiset().count(s1[i]) > 0);
    assert(s2.contains(s1[i]));
    let j = choose|j: int| 0 <= j < s2.len() && s2[j] == s1[i];
    assert((#[trigger] s2[j]) == s1[i]);
}

proof fn lemma_first_match_transfer(
    uni1: Seq<PackageView>,
    uni2: Seq<PackageView>,
    nm: Seq<char>,
    k1: int,
)
    requires
        uni1.to_multiset() == uni2.to_multiset(),
        distinct_names(uni2),
        first_with_name(uni1, nm, k1),
    ensures
        exists|k2: int| #[trigger] first_with_name(uni2, nm, k2) && uni2[k2] == uni1[k1],
{
    lemma_index_in_perm(uni1, uni2, k1);
    let m = choose|j: int| 0 <= j < uni2.len() && (#[trigger] uni2[j]) == uni1[k1];
    lemma_first_exists_below(uni2, nm, m);
    let k2 = choose|k0: int| #[trigger] first_with_name(uni2, nm, k0);
    assert(uni2[k2].name == nm && uni2[m].name == nm);
    assert(k2 == m);
    assert(first_with_name(uni2, nm, k2) && uni2[k2] == uni1[k1]);
}

proof fn lemma_ws_id_transfer(ws1: Seq<PackageView>, ws2: Seq<PackageView>, x: Seq<char>)
    requires
        ws1.to_multiset() == ws2.to_multiset(),
        is_ws_id(ws1, x),
    ensures
        is_ws_id(ws2, x),
{
    let i = choose|i: int| 0 <= i < ws1.len() && (#[trigger] ws1[i]).id == x;
    lemma_index_in_perm(ws1, ws2, i);
    let j = choose|j: int| 0 <= j < ws2.len() && (#[trigger] ws2[j]) == ws1[i];
    assert((#[trigger] ws2[j]).id == x);
}

proof fn lemma_id_edge_transfer(
    ws1: Seq<PackageView>,
    uni1: Seq<PackageView>,
    ws2: Seq<PackageView>,
    uni2: Seq<PackageView>,
    x: Seq<char>,
    y: Seq<char>,
)
    requires
        ws1.to_multiset() == ws2.to_multiset(),
        uni1.to_multiset() == uni2.to_multiset(),
        distinct_names(uni2),
        id_edge(ws1, uni1, x, y),
    ensures
        id_edge(ws2, uni2, x, y),
{
    lemma_ws_id_transfer(ws1, ws2, x);
    lemma_ws_id_transfer(ws1, ws2, y);
    let (a, d, k) = choose|a: int, d: int, k: int|
        0 <= a < ws1.len() && ws1[a].id == x && 0 <= d < ws1[a].deps.len()
            && #[trigger] first_with_name(uni1, ws1[a].deps[d], k) && uni1[k].id == y;
    lemma_index_in_perm(ws1, ws2, a);
    let a2 = choose|j: int| 0 <= j < ws2.len() && (#[trigger] ws2[j]) == ws1[a];
    lemma_first_match_transfer(uni1, uni2, ws1[a].deps[d], k);
    let k2 = choose|k2: int|
        #[trigger] first_with_name(uni2, ws1[a].deps[d], k2) && uni2[k2] == uni1[k];
    assert(ws2[a2].deps[d] == ws1[a].deps[d]);
    assert(first_with_name(uni2, ws2[a2].deps[d], k2));
    assert(uni2[k2].id == y);
}

proof fn lemma_id_reaches_transfer(
    ws1: Seq<PackageView>,
    uni1: Seq<PackageView>,
    ws2: Seq<PackageView>,
    uni2: Seq<PackageView>,
    x: Seq<char>,
    y: Seq<char>,
)
    requires
        ws1.to_multiset() == ws2.to_multiset(),
        uni1.to_multiset() == uni2.to_multiset(),
        distinct_names(uni2),
        id_reaches(ws1, uni1, x, y),
    ensures
        id_reaches(ws2, uni2, x, y),
{
    let p = choose|p: Seq<Seq<char>>| is_id_path(ws1, uni1, p) && p.first() == x && p.last() == y;
    assert forall|m: int| 0 <= m < p.len() - 1 implies id_edge(
        ws2,
        uni2,
        (#[trigger] p[m]),
        p[m + 1],
    ) by {
        assert(id_edge(ws1, uni1, p[m], p[m + 1]));
        lemma_id_edge_transfer(ws1, uni1, ws2, uni2, p[m], p[m + 1]);
    }
    assert(is_id_path(ws2, uni2, p));
}

proof fn lemma_good_transfer(
    ws1: Seq<PackageView>,
    uni1: Seq<PackageView>,
    ws2: Seq<PackageView>,
    uni2: Seq<PackageView>,
    s: Set<Seq<char>>,
)
    requires
        ws1.to_multiset() == ws2.to_multiset(),
        uni1.to_multiset() == uni2.to_multiset(),
        distinct_names(uni1),
        distinct_names(uni2),
        good_cycle_set(ws1, uni1, s),
    ensures
        good_cycle_set(ws2, uni2, s),
{
    if id_scc_set(ws1, uni1, s) && exists|x: Seq<char>, y: Seq<char>|
        s.contains(x) && s.contains(y) && x != y {
        assert forall|x: Seq<char>| s.contains(x) implies is_ws_id(ws2, x) by {
            assert(is_ws_id(ws1, x));
            lemma_ws_id_transfer(ws1, ws2, x);
        }
        assert forall|x: Seq<char>, y: Seq<char>|
            s.contains(x) && s.contains(y) implies id_same_scc(ws2, uni2, x, y) by {
            assert(id_same_scc(ws1, uni1, x, y));
            lemma_id_reaches_transfer(ws1, uni1, ws2, uni2, x, y);
            lemma_id_reaches_transfer(ws1, uni1, ws2, uni2, y, x);
        }
        assert forall|x: Seq<char>, y: Seq<char>|
            s.contains(x) && is_ws_id(ws2, y) && #[trigger] id_same_scc(ws2, uni2, x, y) implies s
            .contains(y) by {
            lemma_ws_id_transfer(ws2, ws1, y);
            lemma_id_reaches_transfer(ws2, uni2, ws1, uni1, x, y);
            lemma_id_reaches_transfer(ws2, uni2, ws1, uni1, y, x);
            assert(id_same_scc(ws1, uni1, x, y));
        }
        assert(id_scc_set(ws2, uni2, s));
    } else {
        let x = choose|x: Seq<char>| s == set![x] && #[trigger] id_edge(ws1, uni1, x, x);
        lemma_id_edge_transfer(ws1, uni1, ws2, uni2, x, x);
    }
}

/// Order independence: permuting the workspace and the package
/// universe (with workspace identifiers unique and universe names
/// unique, so that name resolution is unambiguous) leaves the family
/// of reported member sets unchanged.
pub proof fn lemma_order_independent(
    ws1: Seq<PackageView>,
    uni1: Seq<PackageView>,
    r1: Seq<Vec<String>>,
    ws2: Seq<PackageView>,
    uni2: Seq<PackageView>,
    r2: Seq<Vec<String>>,
)
    requires
        detects(ws1, uni1, r1),
        detects(ws2, uni2, r2),
        ws1.to_multiset() == ws2.to_multiset(),
        uni1.to_multiset() == uni2.to_multiset(),
        distinct_ids(ws1),
        distinct_ids(ws2),
        distinct_names(uni1),
        distinct_names(uni2),
    ensures
        id_family(r1) == id_family(r2),
{
    lemma_family_characterized(ws1, uni1, r1);
    lemma_family_characterized(ws2, uni2, r2);
    assert forall|s: Set<Seq<char>>|
        id_family(r1).contains(s) <==> id_family(r2).contains(s) by {
        if id_family(r1).contains(s) {
            lemma_good_transfer(ws1, uni1, ws2, uni2, s);
            assert(id_family(r2).contains(s));
        }
        if id_family(r2).contains(s) {
            lemma_good_transfer(ws2, uni2, ws1, uni1, s);
            assert(id_family(r1).contains(s));
        }
    }
    assert(id_family(r1) =~= id_family(r2));
}

} // verus!
