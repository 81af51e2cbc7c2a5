//! A disjoint-set (union-find) structure backed by a `HashMap`.
//!
//! The map sends every registered element to its parent element; roots are
//! their own parent. Lookups compress paths: every element visited on the way
//! to a root is re-pointed directly at that root.

use std::collections::HashMap;
use vstd::prelude::*;

verus! {

broadcast use vstd::std_specs::hash::group_hash_axioms;

/// Well-formedness of an abstract representative map: every registered
/// element has a registered representative, and a representative is its
/// own representative.
pub open spec fn rep_map_wf(m: Map<u64, u64>) -> bool {
    forall|e: u64| #[trigger] m.dom().contains(e) ==> m.dom().contains(m[e]) && m[m[e]] == m[e]
}

/// Abstract effect of registering `element`: an absent element becomes its
/// own representative; a present element is left untouched.
pub open spec fn register_spec(m: Map<u64, u64>, element: u64) -> Map<u64, u64> {
    if m.dom().contains(element) {
        m
    } else {
        m.insert(element, element)
    }
}

/// Abstract effect of a successful union: every element of `e1`'s group
/// moves to `e2`'s group (the group keeps `e2`'s representative); every
/// other element keeps its representative.
pub open spec fn union_spec(m: Map<u64, u64>, e1: u64, e2: u64) -> Map<u64, u64> {
    Map::new(
        |x: u64| m.dom().contains(x),
        |x: u64| if m[x] == m[e1] { m[e2] } else { m[x] },
    )
}

/// A disjoint-set structure over `u64` elements, storing parent pointers in
/// a `HashMap` and compressing paths on every representative lookup.
///
/// The view (`self@`) abstracts the structure as the map sending every
/// registered element directly to the representative of its group; path
/// compression never changes the view. The concrete parent pointers are
/// exposed separately as [`Self::parents`].
pub struct DisjointSetHashMap {
    /// Maps each registered element to its parent element.
    backing_map: HashMap<u64, u64>,
    /// The representative of each registered element.
    rep: Ghost<Map<u64, u64>>,
    /// A bound on each element's distance to its root: strictly decreasing
    /// along parent pointers, zero at roots.
    depth: Ghost<Map<u64, nat>>,
}

impl View for DisjointSetHashMap {
    type V = Map<u64, u64>;

    closed spec fn view(&self) -> Map<u64, u64> {
        self.rep@
    }
}

impl DisjointSetHashMap {
    /// The concrete parent map: each registered element mapped to its
    /// current parent element.
    pub closed spec fn parents(&self) -> Map<u64, u64> {
        self.backing_map@
    }

    /// Whether `element` has been registered.
    pub open spec fn registered(&self, element: u64) -> bool {
        self@.dom().contains(element)
    }

    /// Internal invariant: the representative and depth maps cover exactly
    /// the registered elements, parent pointers stay within a group and
    /// terminate at the group's representative, and depths strictly
    /// decrease toward the root.
    pub closed spec fn well_formed(&self) -> bool {
        let b = self.backing_map@;
        let r = self.rep@;
        let d = self.depth@;
        &&& r.dom() == b.dom()
        &&& d.dom() == b.dom()
        &&& forall|e: u64|
            #![trigger b[e]]
            b.dom().contains(e) ==> {
                &&& b.dom().contains(b[e])
                &&& r.dom().contains(r[e])
                &&& r[r[e]] == r[e]
                &&& r[b[e]] == r[e]
                &&& (b[e] == e <==> r[e] == e)
                &&& (b[e] == e ==> d[e] == 0)
                &&& (b[e] != e ==> d[b[e]] < d[e])
            }
    }

    /// The view of a well-formed structure is a well-formed representative
    /// map: representatives are registered and are their own representative.
    proof fn lemma_view_wf(self)
        requires
            self.well_formed(),
        ensures
            rep_map_wf(self@),
    {
        let b = self.backing_map@;
        let r = self.rep@;
        assert forall|e: u64| #[trigger] r.dom().contains(e) implies r.dom().contains(r[e])
            && r[r[e]] == r[e] by {
            assert(b.dom().contains(b[e]));
        }
    }

    /// Constructs an empty structure: no element is registered.
    pub fn new() -> (s: DisjointSetHashMap)
        ensures
            s.well_formed(),
            rep_map_wf(s@),
            s@ == Map::<u64, u64>::empty(),
            s.parents() == Map::<u64, u64>::empty(),
    {
        DisjointSetHashMap {
            backing_map: HashMap::new(),
            rep: Ghost(Map::empty()),
            depth: Ghost(Map::empty()),
        }
    }

    /// Creates a new singleton group containing `element`, with `element`
    /// as its own parent and representative. Registering an element that is
    /// already present changes nothing.
    pub fn make_set(&mut self, element: u64)
        requires
            old(self).well_formed(),
        ensures
            final(self).well_formed(),
            rep_map_wf(final(self)@),
            final(self)@ == register_spec(old(self)@, element),
            final(self).parents() == register_spec(old(self).parents(), element),
            final(self).registered(element),
    {
        if self.backing_map.contains_key(&element) {
            proof {
                self.lemma_view_wf();
            }
            return;
        }
        self.backing_map.insert(element, element);
        proof {
            self.rep@ = self.rep@.insert(element, element);
            self.depth@ = self.depth@.insert(element, 0);
            self.lemma_view_wf();
        }
    }

    /// Returns the representative of the group containing `element`.
    ///
    /// Mutates the structure even though it is conceptually a lookup: every
    /// element visited on the way to the root is re-pointed directly at the
    /// root (path compression), so afterwards `element`'s parent is the
    /// returned root itself. The partition — which group each element
    /// belongs to — is unchanged.
    ///
    /// Calling this on an unregistered element is outside the contract:
    /// callers must register an element before looking it up.
    pub fn get_representative(&mut self, element: u64) -> (r: u64)
        requires
            old(self).well_formed(),
            old(self).registered(element),
        ensures
            final(self).well_formed(),
            rep_map_wf(final(self)@),
            final(self)@ == old(self)@,
            r == old(self)@[element],
            final(self).parents().dom() == old(self).parents().dom(),
            final(self).parents()[element] == r,
            final(self).parents()[r] == r,
            forall|x: u64| #[trigger] old(self).parents().dom().contains(x)
                ==> final(self).parents()[x] == old(self).parents()[x]
                    || final(self).parents()[x] == r,
    {
        let ghost b0 = self.backing_map@;
        let ghost rm = self.rep@;
        let ghost d = self.depth@;

        // First pass: follow parent pointers to the root.
        let mut cur: u64 = element;
        let mut parent: u64 = *self.backing_map.get(&cur).unwrap();
        while parent != cur
            invariant
                self.well_formed(),
                self.backing_map@ == b0,
                self.rep@ == rm,
                self.depth@ == d,
                b0.dom().contains(cur),
                b0.dom().contains(parent),
                parent == b0[cur],
                rm[cur] == rm[element],
            decreases d[cur],
        {
            cur = parent;
            parent = *self.backing_map.get(&cur).unwrap();
        }
        let root = cur;
        proof {
            // `root` is its own parent, hence its own representative, and it
            // shares a representative with `element`.
            assert(rm[root] == root);
            assert(root == rm[element]);
        }

        // Second pass: re-point every element on the walked chain at the root.
        let mut cur: u64 = element;
        while cur != root
            invariant
                self.well_formed(),
                self.rep@ == rm,
                self.depth@ == d,
                self.backing_map@.dom() == b0.dom(),
                b0.dom().contains(cur),
                b0.dom().contains(root),
                rm[cur] == rm[element],
                rm[element] == root,
                self.backing_map@[root] == root,
                cur == element || self.backing_map@[element] == root,
                forall|x: u64| #[trigger] b0.dom().contains(x)
                    ==> self.backing_map@[x] == b0[x] || self.backing_map@[x] == root,
            decreases d[cur],
        {
            let ghost bpre = self.backing_map@;
            let next: u64 = *self.backing_map.get(&cur).unwrap();
            self.backing_map.insert(cur, root);
            proof {
                let bnew = self.backing_map@;
                assert(bnew.dom() =~= bpre.dom());
                // `cur` is not a root: its representative is `root`, not itself.
                assert(bpre[cur] != cur);
                assert(d[cur] >= 1);
                assert(d[root] == 0);
                assert forall|e: u64| #![trigger bnew[e]] bnew.dom().contains(e) implies {
                    &&& bnew.dom().contains(bnew[e])
                    &&& rm.dom().contains(rm[e])
                    &&& rm[rm[e]] == rm[e]
                    &&& rm[bnew[e]] == rm[e]
                    &&& (bnew[e] == e <==> rm[e] == e)
                    &&& (bnew[e] == e ==> d[e] == 0)
                    &&& (bnew[e] != e ==> d[bnew[e]] < d[e])
                } by {
                    assert(bpre.dom().contains(e));
                    if e == cur {
                        assert(bnew[e] == root);
                        assert(rm[root] == root);
                    } else {
                        assert(bnew[e] == bpre[e]);
                    }
                }
            }
            cur = next;
        }
        proof {
            self.lemma_view_wf();
        }
        root
    }

    /// Merges the groups containing `e1` and `e2`.
    ///
    /// If either element is unregistered, returns `false` and leaves the
    /// structure untouched. Otherwise resolves both representatives (with
    /// path compression as a side effect), attaches the root of `e1`'s
    /// group under the root of `e2`'s group — so the merged group keeps
    /// `e2`'s representative — and returns `true`. Merging a group with
    /// itself succeeds and leaves the partition unchanged.
    pub fn union(&mut self, e1: u64, e2: u64) -> (success: bool)
        requires
            old(self).well_formed(),
        ensures
            final(self).well_formed(),
            rep_map_wf(final(self)@),
            success == (old(self).registered(e1) && old(self).registered(e2)),
            !success ==> final(self)@ == old(self)@
                && final(self).parents() == old(self).parents(),
            success ==> final(self)@ == union_spec(old(self)@, e1, e2),
            final(self)@.dom() == old(self)@.dom(),
    {
        if !self.backing_map.contains_key(&e1) || !self.backing_map.contains_key(&e2) {
            proof {
                self.lemma_view_wf();
            }
            return false;
        }
        let ghost m0 = self.rep@;
        let rep1 = self.get_representative(e1);
        let rep2 = self.get_representative(e2);
        let ghost bpre = self.backing_map@;
        let ghost d0 = self.depth@;
        self.backing_map.insert(rep1, rep2);
        proof {
            let bnew = self.backing_map@;
            assert(bnew.dom() =~= bpre.dom());
            assert(m0[rep1] == rep1 && m0[rep2] == rep2);
            assert(bpre[rep2] == rep2);
            assert(d0[rep2] == 0);
            if rep1 != rep2 {
                self.rep@ = Map::new(
                    |x: u64| m0.dom().contains(x),
                    |x: u64| if m0[x] == rep1 { rep2 } else { m0[x] },
                );
                self.depth@ = Map::new(
                    |x: u64| m0.dom().contains(x),
                    |x: u64| if m0[x] == rep1 { (d0[x] + 1) as nat } else { d0[x] },
                );
                let rm = self.rep@;
                let d = self.depth@;
                assert(rm.dom() =~= m0.dom());
                assert(d.dom() =~= m0.dom());
                assert(d0[rep1] == 0);
                assert forall|e: u64| #![trigger bnew[e]] bnew.dom().contains(e) implies {
                    &&& bnew.dom().contains(bnew[e])
                    &&& rm.dom().contains(rm[e])
                    &&& rm[rm[e]] == rm[e]
                    &&& rm[bnew[e]] == rm[e]
                    &&& (bnew[e] == e <==> rm[e] == e)
                    &&& (bnew[e] == e ==> d[e] == 0)
                    &&& (bnew[e] != e ==> d[bnew[e]] < d[e])
                } by {
                    assert(bpre.dom().contains(e));
                    assert(bpre[e] == bpre[e]);
                    if e == rep1 {
                        assert(bnew[e] == rep2);
                        assert(rm[rep1] == rep2 && rm[rep2] == rep2);
                        assert(d[rep1] == 1 && d[rep2] == 0);
                    } else {
                        assert(bnew[e] == bpre[e]);
                        assert(m0[bpre[e]] == m0[e]);
                    }
                }
            }
            assert(self@ =~= union_spec(m0, e1, e2));
            self.lemma_view_wf();
        }
        true
    }
}

} // verus!
