//! The package model: a workspace member's identifier, display name and
//! declared dependency names, together with first-match lookup by name
//! and by identifier.

use vstd::prelude::*;

verus! {

/// One package record: a workspace member, or any record of the wider
/// package universe that dependency names are resolved against.
pub struct Package {
    /// The stable identifier, unique among workspace members.
    pub id: String,
    /// The display name, used to resolve declared dependencies.
    pub name: String,
    /// The names of the packages this one declares a dependency on.
    pub deps: Vec<String>,
}

/// The mathematical value of a `Package`.
pub ghost struct PackageView {
    pub id: Seq<char>,
    pub name: Seq<char>,
    pub deps: Seq<Seq<char>>,
}

impl View for Package {
    type V = PackageView;

    open spec fn view(&self) -> PackageView {
        PackageView {
            id: self.id@,
            name: self.name@,
            deps: self.deps@.map_values(|d: String| d@),
        }
    }
}

/// The views of a sequence of packages.
pub open spec fn views(s: Seq<Package>) -> Seq<PackageView> {
    s.map_values(|p: Package| p@)
}

/// The identifiers of a sequence of package views, in order.
pub open spec fn ids_of(pkgs: Seq<PackageView>) -> Seq<Seq<char>> {
    pkgs.map_values(|p: PackageView| p.id)
}

/// No two of the packages share an identifier.
pub open spec fn distinct_ids(pkgs: Seq<PackageView>) -> bool {
    forall|i: int, j: int|
        0 <= i < pkgs.len() && 0 <= j < pkgs.len() && i != j ==> pkgs[i].id != pkgs[j].id
}

/// No two of the packages share a display name.
pub open spec fn distinct_names(pkgs: Seq<PackageView>) -> bool {
    forall|i: int, j: int|
        0 <= i < pkgs.len() && 0 <= j < pkgs.len() && i != j ==> pkgs[i].name != pkgs[j].name
}

/// Position `k` holds the first package whose name is `name`.
pub open spec fn first_with_name(pkgs: Seq<PackageView>, name: Seq<char>, k: int) -> bool {
    &&& 0 <= k < pkgs.len()
    &&& pkgs[k].name == name
    &&& forall|m: int| 0 <= m < k ==> pkgs[m].name != name
}

/// Position `k` holds the first package whose identifier is `id`.
pub open spec fn first_with_id(pkgs: Seq<PackageView>, id: Seq<char>, k: int) -> bool {
    &&& 0 <= k < pkgs.len()
    &&& pkgs[k].id == id
    &&& forall|m: int| 0 <= m < k ==> pkgs[m].id != id
}

pub proof fn lemma_first_with_name_unique(
    pkgs: Seq<PackageView>,
    name: Seq<char>,
    k1: int,
    k2: int,
)
    requires
        first_with_name(pkgs, name, k1),
        first_with_name(pkgs, name, k2),
    ensures
        k1 == k2,
{
}

pub proof fn lemma_first_with_id_unique(pkgs: Seq<PackageView>, id: Seq<char>, k1: int, k2: int)
    requires
        first_with_id(pkgs, id, k1),
        first_with_id(pkgs, id, k2),
    ensures
        k1 == k2,
{
}

/// Find the first package whose name equals `name`.
pub fn find_by_name(pkgs: &Vec<Package>, name: &String) -> (r: Option<usize>)
    ensures
        match r {
            Some(k) => first_with_name(views(pkgs@), name@, k as int),
            None => forall|k: int| 0 <= k < pkgs@.len() ==> views(pkgs@)[k].name != name@,
        },
{
    let mut k: usize = 0;
    while k < pkgs.len()
        invariant
            k <= pkgs@.len(),
            forall|m: int| 0 <= m < k ==> views(pkgs@)[m].name != name@,
        decreases pkgs@.len() - k,
    {
        assert(views(pkgs@)[k as int] == pkgs@[k as int]@);
        if pkgs[k].name == *name {
            return Some(k);
        }
        k += 1;
    }
    None
}

/// Find the first package whose identifier equals `id`.
pub fn find_by_id(pkgs: &Vec<Package>, id: &String) -> (r: Option<usize>)
    ensures
        match r {
            Some(k) => first_with_id(views(pkgs@), id@, k as int),
            None => forall|k: int| 0 <= k < pkgs@.len() ==> views(pkgs@)[k].id != id@,
        },
{
    let mut k: usize = 0;
    while k < pkgs.len()
        invariant
            k <= pkgs@.len(),
            forall|m: int| 0 <= m < k ==> views(pkgs@)[m].id != id@,
        decreases pkgs@.len() - k,
    {
        assert(views(pkgs@)[k as int] == pkgs@[k as int]@);
        if pkgs[k].id == *id {
            return Some(k);
        }
        k += 1;
    }
    None
}

/// The number of declared dependencies over all the packages.
pub open spec fn total_deps(pkgs: Seq<PackageView>) -> nat
    decreases pkgs.len(),
{
    if pkgs.len() == 0 {
        0
    } else {
        total_deps(pkgs.drop_last()) + pkgs.last().deps.len()
    }
}

pub proof fn lemma_total_deps_take_step(pkgs: Seq<PackageView>, i: int)
    requires
        0 <= i < pkgs.len(),
    ensures
        total_deps(pkgs.take(i + 1)) == total_deps(pkgs.take(i)) + pkgs[i].deps.len(),
{
    assert(pkgs.take(i + 1).drop_last() =~= pkgs.take(i));
    assert(pkgs.take(i + 1).last() == pkgs[i]);
}

pub proof fn lemma_total_deps_take_le(pkgs: Seq<PackageView>, i: int)
    requires
        0 <= i <= pkgs.len(),
    ensures
        total_deps(pkgs.take(i)) <= total_deps(pkgs),
    decreases pkgs.len() - i,
{
    if i == pkgs.len() {
        assert(pkgs.take(i) =~= pkgs);
    } else {
        lemma_total_deps_take_step(pkgs, i);
        lemma_total_deps_take_le(pkgs, i + 1);
    }
}

} // verus!
