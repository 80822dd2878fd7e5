//! Rendering a cycle as a closed textual path: each member identifier
//! is resolved to its display name (falling back to the identifier
//! itself), the names are joined with an arrow separator, and the first
//! name is repeated at the end to close the loop.

use vstd::prelude::*;

use crate::package::{
    find_by_id, first_with_id, lemma_first_with_id_unique, views, Package, PackageView,
};

verus! {

/// The separator between two names of a rendered path.
pub open spec fn sep() -> Seq<char> {
    " -> "@
}

/// The display name that identifier `id` resolves to: the name of the
/// first universe package with that identifier, or the identifier
/// itself when no package record matches.
pub open spec fn display_name(uni: Seq<PackageView>, id: Seq<char>) -> Seq<char> {
    if exists|k: int| first_with_id(uni, id, k) {
        uni[choose|k: int| first_with_id(uni, id, k)].name
    } else {
        id
    }
}

/// The display names of a list of identifiers.
pub open spec fn names_of(ids: Seq<Seq<char>>, uni: Seq<PackageView>) -> Seq<Seq<char>> {
    ids.map_values(|id: Seq<char>| display_name(uni, id))
}

/// The names, joined by the separator.
pub open spec fn joined(names: Seq<Seq<char>>) -> Seq<char>
    decreases names.len(),
{
    if names.len() == 0 {
        Seq::empty()
    } else if names.len() == 1 {
        names[0]
    } else {
        names[0] + sep() + joined(names.drop_first())
    }
}

/// The closed path for a cycle of identifiers: its display names, with
/// the first repeated at the end, joined by the separator.
pub open spec fn render_cycle(ids: Seq<Seq<char>>, uni: Seq<PackageView>) -> Seq<char> {
    joined(names_of(ids, uni).push(names_of(ids, uni)[0]))
}

pub proof fn lemma_joined_push(names: Seq<Seq<char>>, x: Seq<char>)
    requires
        names.len() >= 1,
    ensures
        joined(names.push(x)) == joined(names) + sep() + x,
    decreases names.len(),
{
    if names.len() == 1 {
        assert(names.push(x).drop_first() =~= seq![x]);
        assert(names.push(x)[0] == names[0]);
        assert(joined(seq![x]) == x);
        assert(joined(names) == names[0]);
        assert(joined(names.push(x)) == names[0] + sep() + x);
    } else {
        assert(names.push(x).drop_first() =~= names.drop_first().push(x));
        lemma_joined_push(names.drop_first(), x);
        assert(names[0] + sep() + (joined(names.drop_first()) + sep() + x) =~= (names[0] + sep()
            + joined(names.drop_first())) + sep() + x);
        assert(names.push(x)[0] == names[0]);
        assert(joined(names) == names[0] + sep() + joined(names.drop_first()));
        assert(joined(names.push(x)) == names[0] + sep() + joined(names.drop_first().push(x)));
    }
}

/// Relies on String::push_str: it appends the characters of `s`.
#[verifier::external_body]
fn push_chars(out: &mut String, s: &str)
    ensures
        final(out)@ == old(out)@ + s@,
{
    out.push_str(s);
}

/// Render one cycle as a closed path over display names, resolving each
/// member identifier against the package universe and falling back to
/// the raw identifier where nothing matches.
#[verifier::loop_isolation(false)]
pub fn format_cycle(cycle: &Vec<String>, universe: &Vec<Package>) -> (r: String)
    requires
        cycle@.len() >= 1,
    ensures
        r@ == render_cycle(cycle@.map_values(|s: String| s@), views(universe@)),
{
    let ghost ids = cycle@.map_values(|s: String| s@);
    let ghost univ = views(universe@);
    let mut names: Vec<String> = Vec::new();
    let mut i: usize = 0;
    while i < cycle.len()
        invariant
            i <= cycle@.len(),
            names@.len() == i,
            forall|m: int|
                0 <= m < i ==> ((#[trigger] names@[m])@) == display_name(univ, ids[m]),
        decreases cycle@.len() - i,
    {
        let cid = &cycle[i];
        proof {
            assert(ids[i as int] == cid@);
        }
        match find_by_id(universe, cid) {
            Some(k) => {
                proof {
                    assert(views(universe@)[k as int] == universe@[k as int]@);
                    let k2 = choose|k2: int| first_with_id(univ, cid@, k2);
                    lemma_first_with_id_unique(univ, cid@, k as int, k2);
                }
                names.push(universe[k].name.clone());
            },
            None => {
                proof {
                    if exists|k2: int| first_with_id(univ, cid@, k2) {
                        let k2 = choose|k2: int| first_with_id(univ, cid@, k2);
                        assert(false);
                    }
                }
                names.push(cid.clone());
            },
        }
        i += 1;
    }
    let ghost nseq = names@.map_values(|s: String| s@);
    proof {
        assert(nseq =~= names_of(ids, univ));
    }
    let mut out: String = names[0].clone();
    proof {
        assert(nseq.take(1) =~= seq![nseq[0]]);
        assert(out@ == joined(nseq.take(1)));
    }
    let mut i: usize = 1;
    while i < names.len()
        invariant
            1 <= i <= names@.len(),
            out@ == joined(nseq.take(i as int)),
        decreases names@.len() - i,
    {
        push_chars(&mut out, " -> ");
        push_chars(&mut out, names[i].as_str());
        proof {
            assert(" -> "@ == sep());
            lemma_joined_push(nseq.take(i as int), nseq[i as int]);
            assert(nseq.take(i as int + 1) =~= nseq.take(i as int).push(nseq[i as int]));
        }
        i += 1;
    }
    proof {
        assert(nseq.take(nseq.len() as int) =~= nseq);
    }
    push_chars(&mut out, " -> ");
    push_chars(&mut out, names[0].as_str());
    proof {
        assert(" -> "@ == sep());
        lemma_joined_push(nseq, nseq[0]);
        assert(out@ == render_cycle(ids, univ));
    }
    out
}

} // verus!
