//! Laws of the disjoint-set operations, stated and proved over the abstract
//! representative maps of [`crate::disjointset`].
//!
//! The view of a [`crate::disjointset::DisjointSetHashMap`] is the map
//! sending every registered element to the representative of its group;
//! `register_spec` and `union_spec` are the abstract effects of the two
//! mutating operations on that view, as stated in their contracts. The
//! lemmas here relate those effects across calls.

use vstd::prelude::*;

use crate::disjointset::register_spec;
use crate::disjointset::rep_map_wf;
use crate::disjointset::union_spec;

verus! {

/// Law: as long as only registrations have been performed, every registered
/// element is its own representative. Starting from the empty map (where the
/// hypothesis holds vacuously), each registration preserves the property, so
/// a lookup after any sequence of registrations returns the element itself.
pub proof fn lemma_register_reflexive(m: Map<u64, u64>, element: u64)
    requires
        forall|x: u64| #[trigger] m.dom().contains(x) ==> m[x] == x,
    ensures
        register_spec(m, element).dom().contains(element),
        register_spec(m, element)[element] == element,
        forall|x: u64| #[trigger] register_spec(m, element).dom().contains(x)
            ==> register_spec(m, element)[x] == x,
        rep_map_wf(register_spec(m, element)),
{
}

/// Law: registering an element twice has the same effect as registering it
/// once; the second registration changes nothing, and the set of registered
/// elements grows by at most the one element.
pub proof fn lemma_register_idempotent(m: Map<u64, u64>, element: u64)
    ensures
        register_spec(register_spec(m, element), element) == register_spec(m, element),
        register_spec(m, element).dom() == m.dom().insert(element),
{
    assert(register_spec(m, element).dom() =~= m.dom().insert(element));
}

/// Law: a successful union connects its two arguments — afterwards they have
/// the same representative, namely the old representative of the second
/// argument (the first group's root is attached under the second group's
/// root). Elements outside the first argument's group keep their
/// representative, no element is registered or lost, and the resulting map
/// is again a well-formed representative map.
pub proof fn lemma_union_merges(m: Map<u64, u64>, e1: u64, e2: u64)
    requires
        rep_map_wf(m),
        m.dom().contains(e1),
        m.dom().contains(e2),
    ensures
        union_spec(m, e1, e2).dom() == m.dom(),
        union_spec(m, e1, e2)[e1] == m[e2],
        union_spec(m, e1, e2)[e2] == m[e2],
        union_spec(m, e1, e2)[e1] == union_spec(m, e1, e2)[e2],
        forall|x: u64| #[trigger] m.dom().contains(x) && m[x] != m[e1]
            ==> union_spec(m, e1, e2)[x] == m[x],
        rep_map_wf(union_spec(m, e1, e2)),
{
    let u = union_spec(m, e1, e2);
    assert(u.dom() =~= m.dom());
    assert forall|x: u64| #[trigger] u.dom().contains(x) implies u.dom().contains(u[x])
        && u[u[x]] == u[x] by {
        if m[x] == m[e1] {
            assert(u[x] == m[e2]);
            assert(m[m[e2]] == m[e2]);
        } else {
            assert(u[x] == m[x]);
            assert(m[m[x]] == m[x]);
        }
    }
}

/// Law: unions chain — after merging `a`'s group with `b`'s and then `b`'s
/// group with `c`'s, the elements `a` and `c` share a representative.
pub proof fn lemma_union_transitive(m: Map<u64, u64>, a: u64, b: u64, c: u64)
    requires
        rep_map_wf(m),
        m.dom().contains(a),
        m.dom().contains(b),
        m.dom().contains(c),
    ensures
        union_spec(union_spec(m, a, b), b, c)[a] == union_spec(union_spec(m, a, b), b, c)[c],
{
    let m1 = union_spec(m, a, b);
    let m2 = union_spec(m1, b, c);
    assert(m1.dom().contains(a) && m1.dom().contains(b) && m1.dom().contains(c));
    assert(m1[a] == m[b] && m1[b] == m[b]);
    assert(m2[a] == m1[c]);
    assert(m2[c] == m1[c]);
}

} // verus!
