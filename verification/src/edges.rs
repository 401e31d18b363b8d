//! The interface for a graph that grows and shrinks edge by edge.

use crate::complex::SimplicialComplex;
use crate::laws::{
    has_edge_more, has_simplex_less, is_insertion, is_removal, keeps_order, keeps_slots, same_simplices,
};
use crate::simplex::edge;
use vstd::prelude::*;

verus! {

impl SimplicialComplex {
    /// Whether the complex holds the edge from `u` to `v`.
    pub fn holds_edge(&self, u: usize, v: usize) -> (yes: bool)
        requires
            self.wf(),
        ensures
            yes == self.has_edge(u, v),
    {
        let mut e: Vec<usize> = Vec::new();
        e.push(u);
        e.push(v);
        assert(e@ == edge(u, v));
        self.contains(&e)
    }

    /// Applies the directed edge from `u` to `v`, and says whether it went
    /// in. It does not where `u` is `v`, and it does not where the complex
    /// joins the two by an edge already, in either direction; then the complex
    /// holds what it held before.
    pub fn insert_edge(&mut self, u: usize, v: usize) -> (added: bool)
        requires
            old(self).wf(),
        ensures
            final(self).wf(),
            added == (u != v && !old(self).adjacent(u, v)),
            u != v ==> is_insertion(*old(self), *final(self), u, v),
            u != v ==> has_edge_more(*old(self), *final(self), u, v),
            keeps_slots(*old(self), *final(self)),
            !added ==> same_simplices(*old(self), *final(self)),
    {
        if u == v {
            return false;
        }
        let joined = self.holds_edge(u, v) || self.holds_edge(v, u);
        let ghost before = *self;
        let mut e: Vec<usize> = Vec::new();
        e.push(u);
        e.push(v);
        self.add(e);
        proof {
            if joined {
                assert forall|s: Seq<usize>| before.has(s) <==> #[trigger] self.has(s) by {
                    if self.has(s) && !before.has(s) {
                        let d = if before.has_edge(u, v) {
                            edge(u, v)
                        } else {
                            edge(v, u)
                        };
                        before.lemma_facets_present(d, 0);
                        before.lemma_facets_present(d, 1);
                        assert(edge(u, v).remove(0) == crate::simplex::point(v));
                        assert(edge(u, v).remove(1) == crate::simplex::point(u));
                        assert(edge(v, u).remove(0) == crate::simplex::point(u));
                        assert(edge(v, u).remove(1) == crate::simplex::point(v));
                    }
                }
            }
        }
        !joined
    }

    /// Retracts the directed edge from `u` to `v`, with every simplex that
    /// holds it, and says whether the edge was there. Where it was not, the
    /// complex stays as it is.
    pub fn remove_edge(&mut self, u: usize, v: usize) -> (removed: bool)
        requires
            old(self).wf(),
        ensures
            final(self).wf(),
            removed == old(self).has_edge(u, v),
            removed ==> is_removal(*old(self), *final(self), edge(u, v)),
            removed ==> has_simplex_less(*old(self), *final(self), edge(u, v)),
            removed ==> keeps_order(*old(self), *final(self)),
            removed ==> (old(self).is_flag() ==> final(self).is_flag()),
            !removed ==> *final(self) == *old(self),
    {
        if !self.holds_edge(u, v) {
            return false;
        }
        let mut e: Vec<usize> = Vec::new();
        e.push(u);
        e.push(v);
        assert(e@ == edge(u, v));
        self.remove(e);
        true
    }
}

} // verus!
