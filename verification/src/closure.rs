//! Closing the complex over its edges: a sequence of three or more vertices
//! is a simplex as soon as all its facets are.

use crate::complex::{lemma_insert_keeps, SimplicialComplex};
use crate::laws::{
    has_edge_more, is_insertion, keeps_slot, keeps_slots, lemma_insertion_edges, lemma_keeps_slots,
};
use crate::simplex::{
    edge, extends, is_facet, is_facet_at, lemma_places_in_facet, places, point, position,
};
use vstd::prelude::*;

verus! {

/// Deleting two positions of a sequence gives the same in either order.
pub proof fn lemma_remove_twice(t: Seq<usize>, a: int, b: int)
    requires
        0 <= a < b < t.len(),
    ensures
        t.remove(a).remove(b - 1) == t.remove(b).remove(a),
        t.remove(a)[b - 1] == t[b],
        t.remove(b)[a] == t[a],
{
    assert(t.remove(a).remove(b - 1) =~= t.remove(b).remove(a));
}

/// `t` has `y` as the facet at some position whose vertex is one of `ws`.
pub open spec fn extends_by_one_of(y: Seq<usize>, t: Seq<usize>, ws: Seq<usize>) -> bool {
    exists|p: int| #[trigger] is_facet_at(y, t, p) && ws.contains(t[p])
}

/// One of the first `n` simplices of `list` is a facet of `s`.
pub open spec fn has_facet_in(list: Seq<Vec<usize>>, n: int, s: Seq<usize>) -> bool {
    exists|i: int| 0 <= i < n && is_facet(#[trigger] list[i]@, s)
}

/// `s` is one of the simplices of `list` from position `from` on.
pub open spec fn is_listed(list: Seq<Vec<usize>>, from: int, s: Seq<usize>) -> bool {
    exists|i: int| from <= i < list.len() && (#[trigger] list[i])@ == s
}

impl SimplicialComplex {
    /// The complex holds every facet of `t`.
    pub open spec fn facets_held(&self, t: Seq<usize>) -> bool {
        forall|p: int| 0 <= p < t.len() ==> self.has(#[trigger] t.remove(p))
    }

    /// The complex is closed over its edges: it holds every sequence of three
    /// or more vertices all of whose facets it holds. With the closure under
    /// facets this makes it the directed clique complex of its edges.
    pub open spec fn is_flag(&self) -> bool {
        forall|t: Seq<usize>| t.len() >= 3 && #[trigger] self.facets_held(t) ==> self.has(t)
    }

    /// The complex is closed over its edges as far as sequences of at most `m`
    /// vertices go.
    pub open spec fn flag_upto(&self, m: int) -> bool {
        forall|t: Seq<usize>| 3 <= t.len() <= m && #[trigger] self.facets_held(t) ==> self.has(t)
    }

    /// A sequence of three or more vertices all of whose facets are in the
    /// complex has no vertex twice.
    pub proof fn lemma_facets_distinct(&self, t: Seq<usize>)
        requires
            self.wf(),
            t.len() >= 3,
            self.facets_held(t),
        ensures
            t.no_duplicates(),
    {
        assert forall|i: int, j: int| 0 <= i < t.len() && 0 <= j < t.len() && i != j implies t[i] != t[j] by {
            let lo = if i < j {
                i
            } else {
                j
            };
            let hi = if i < j {
                j
            } else {
                i
            };
            let k = if lo > 0 {
                0int
            } else if hi > 1 {
                1int
            } else {
                2int
            };
            let f = t.remove(k);
            assert(self.has(f));
            let d = f.len() - 1;
            let slot = choose|slot: int| 0 <= slot < self.count(d) && #[trigger] self.at(d, slot) == f;
            assert(self.level_wf(d));
            let ni = if i < k {
                i
            } else {
                i - 1
            };
            let nj = if j < k {
                j
            } else {
                j - 1
            };
            assert(f[ni] == t[i] && f[nj] == t[j]);
        }
    }

    /// In a sequence of three or more vertices all of whose facets are in the
    /// complex, any two vertices, taken in their order, are joined by an edge.
    pub proof fn lemma_pairs_of_facets(&self, t: Seq<usize>, i: int, j: int)
        requires
            self.wf(),
            t.len() >= 3,
            self.facets_held(t),
            0 <= i < j < t.len(),
        ensures
            self.has_edge(t[i], t[j]),
    {
        let k = if i > 0 {
            0int
        } else if j > 1 {
            1int
        } else {
            2int
        };
        let f = t.remove(k);
        assert(self.has(f));
        let ni = if i < k {
            i
        } else {
            i - 1
        };
        let nj = if j < k {
            j
        } else {
            j - 1
        };
        assert(f[ni] == t[i] && f[nj] == t[j]);
        self.lemma_pairs_are_edges(f, ni, nj);
    }

    /// Where all facets of `t` are in the complex, the edges place the vertex
    /// at position `p` of `t` at position `p` of the rest: from any position
    /// up to `p`, the search for its place ends at `p`.
    pub proof fn lemma_entry_from(&self, t: Seq<usize>, p: int, i: int)
        requires
            self.wf(),
            t.len() >= 3,
            self.facets_held(t),
            0 <= i <= p < t.len(),
        ensures
            self.entry_from(t.remove(p), t[p], i) == p,
        decreases p - i,
    {
        let y = t.remove(p);
        let w = t[p];
        if i == p {
            if p < y.len() {
                assert(y[p] == t[p + 1]);
                self.lemma_pairs_of_facets(t, p, p + 1);
            }
        } else {
            assert(y[i] == t[i]);
            self.lemma_pairs_of_facets(t, i, p);
            assert(!(self.has_edge(w, y[i]) && self.has_edge(y[i], w)));
            self.lemma_entry_from(t, p, i + 1);
        }
    }

    /// Where all facets of `t` are in the complex, the vertex at position `p`
    /// of `t` extends every facet of the rest of `t` to a simplex of the
    /// complex.
    pub proof fn lemma_extends_all(&self, t: Seq<usize>, p: int)
        requires
            self.wf(),
            t.len() >= 3,
            self.facets_held(t),
            0 <= p < t.len(),
        ensures
            self.extends_all(t.remove(p), t[p]),
    {
        let y = t.remove(p);
        let w = t[p];
        assert forall|q: int| 0 <= q < y.len() implies self.has_extension(#[trigger] y.remove(q), w) by {
            let f = y.remove(q);
            let tq = if q < p {
                q
            } else {
                q + 1
            };
            let z = t.remove(tq);
            assert(self.has(z));
            let pz = if p < tq {
                p
            } else {
                p - 1
            };
            if p < tq {
                lemma_remove_twice(t, p, tq);
            } else {
                lemma_remove_twice(t, tq, p);
            }
            assert(z.remove(pz) == f);
            assert(z[pz] == w);
            assert(is_facet_at(f, z, pz));
            assert(extends(f, w, z));
            let slot = choose|slot: int| 0 <= slot < self.count(z.len() - 1) && #[trigger] self.at(z.len() - 1, slot) == z;
            assert(self.at(f.len() as int, slot) == z);
        }
    }

    /// Puts in every simplex that has `y` as a facet and all of whose facets
    /// are in the complex, and adds those that were not there to `found`.
    pub fn close_over(&mut self, y: &Vec<usize>, found: &mut Vec<Vec<usize>>)
        requires
            old(self).wf(),
            2 <= y@.len() < old(self).levels(),
            old(self).has(y@),
        ensures
            final(self).wf(),
            final(self).levels() == old(self).levels(),
            forall|s: Seq<usize>|
                #[trigger] final(self).has(s) <==> old(self).has(s) || (is_facet(y@, s) && old(self).facets_held(s)),
            final(found)@.len() >= old(found)@.len(),
            forall|i: int| 0 <= i < old(found)@.len() ==> #[trigger] final(found)@[i] == old(found)@[i],
            forall|s: Seq<usize>|
                final(self).has(s) && !old(self).has(s) <==> #[trigger] is_listed(
                    final(found)@,
                    old(found)@.len() as int,
                    s,
                ),
            forall|e: int|
                0 <= e < old(self).levels() && e != y@.len() ==> #[trigger] final(self).count(e) == old(self).count(e),
            final(self).count(y@.len() as int) >= old(self).count(y@.len() as int),
            forall|e: int, k: int|
                0 <= e < old(self).levels() && 0 <= k < old(self).count(e) ==> #[trigger] final(self).at(e, k)
                    == old(self).at(e, k),
    {
        let ghost pre = *self;
        let ghost listed = found@;
        let ext = self.extension_set(y);
        proof {
            let d = y@.len() - 1;
            assert(pre.level_wf(d));
            let k = choose|k: int| 0 <= k < pre.count(d) && #[trigger] pre.at(d, k) == y@;
            assert(y@.no_duplicates());
        }
        let mut j: usize = 0;
        while j < ext.len()
            invariant
                pre.wf(),
                self.wf(),
                2 <= y@.len() < pre.levels(),
                y@.no_duplicates(),
                self.levels() == pre.levels(),
                j <= ext@.len(),
                forall|w: usize| #[trigger] ext@.contains(w) <==> pre.extends_all(y@, w),
                forall|s: Seq<usize>| s.len() != y@.len() + 1 ==> (#[trigger] self.has(s) <==> pre.has(s)),
                forall|s: Seq<usize>| pre.has(s) ==> #[trigger] self.has(s),
                forall|s: Seq<usize>|
                    #[trigger] self.has(s) ==> pre.has(s) || (is_facet(y@, s) && pre.facets_held(s)),
                forall|t: Seq<usize>|
                    pre.facets_held(t) && #[trigger] extends_by_one_of(y@, t, ext@.subrange(0, j as int))
                        ==> self.has(t),
                found@.len() >= listed.len(),
                forall|i: int| 0 <= i < listed.len() ==> #[trigger] found@[i] == listed[i],
                forall|s: Seq<usize>|
                    self.has(s) && !pre.has(s) <==> #[trigger] is_listed(found@, listed.len() as int, s),
                forall|e: int|
                    0 <= e < pre.levels() && e != y@.len() ==> #[trigger] self.count(e) == pre.count(e),
                self.count(y@.len() as int) >= pre.count(y@.len() as int),
                forall|e: int, k: int|
                    0 <= e < pre.levels() && 0 <= k < pre.count(e) ==> #[trigger] self.at(e, k) == pre.at(e, k),
            decreases ext@.len() - j,
        {
            let w = ext[j];
            let ghost before = *self;
            let ghost found_before = found@;
            let ghost seen = ext@.subrange(0, j as int);
            let ghost seen_next = ext@.subrange(0, j + 1);
            proof {
                assert(seen_next == seen.push(w));
                assert forall|t: Seq<usize>| pre.facets_held(t) implies #[trigger] before.facets_held(t) by {
                    assert forall|p: int| 0 <= p < t.len() implies before.has(#[trigger] t.remove(p)) by {
                        assert(pre.has(t.remove(p)));
                    }
                }
            }
            if position(y, w).is_none() {
                let t = self.coface_with(y, w);
                proof {
                    let q = self.entry_point(y@, w);
                    lemma_insert_keeps(y@, q, w, w, w);
                    assert(is_facet_at(y@, t@, q));
                }
                if self.try_insert(&t) {
                    found.push(t);
                    proof {
                        let last = found_before.len() as int;
                        assert(found@[last]@ == t@);
                        assert(before.admits(t@));
                        assert(pre.facets_held(t@)) by {
                            assert forall|p: int| 0 <= p < t@.len() implies pre.has(#[trigger] t@.remove(p)) by {
                                assert(before.holds(t@.len() - 2, t@.remove(p)));
                                assert(before.has(t@.remove(p)));
                            }
                        }
                        assert forall|s: Seq<usize>| self.has(s) && !pre.has(s) implies #[trigger] is_listed(
                            found@,
                            listed.len() as int,
                            s,
                        ) by {
                            if s == t@ {
                                assert(found@[last]@ == s);
                            } else {
                                assert(before.has(s));
                                assert(is_listed(found_before, listed.len() as int, s));
                                let i = choose|i: int|
                                    listed.len() <= i < found_before.len() && (#[trigger] found_before[i])@ == s;
                                assert(found@[i]@ == s);
                            }
                        }
                        assert forall|s: Seq<usize>| #[trigger]
                            is_listed(found@, listed.len() as int, s) implies self.has(s) && !pre.has(s) by {
                            let i = choose|i: int| listed.len() <= i < found@.len() && (#[trigger] found@[i])@ == s;
                            if i < last {
                                assert(found_before[i]@ == s);
                                assert(is_listed(found_before, listed.len() as int, s));
                            }
                        }
                    }
                }
            }
            proof {
                assert forall|t: Seq<usize>|
                    pre.facets_held(t) && #[trigger] extends_by_one_of(y@, t, seen_next) implies self.has(t) by {
                    let p = choose|p: int| #[trigger] is_facet_at(y@, t, p) && seen_next.contains(t[p]);
                    let i = choose|i: int| 0 <= i < seen_next.len() && seen_next[i] == t[p];
                    if i < j {
                        assert(seen[i] == t[p]);
                        assert(seen.contains(t[p]));
                        assert(extends_by_one_of(y@, t, seen));
                        assert(before.has(t));
                    } else {
                        assert(t[p] == w);
                        assert(t.len() == y@.len() + 1);
                        pre.lemma_facets_distinct(t);
                        assert(!y@.contains(w)) by {
                            if y@.contains(w) {
                                let a = choose|a: int| 0 <= a < y@.len() && y@[a] == w;
                                let ta = if a < p {
                                    a
                                } else {
                                    a + 1
                                };
                                assert(t[ta] == w);
                            }
                        }
                        assert(before.facets_held(t));
                        before.lemma_entry_from(t, p, 0);
                        assert(y@.insert(p, w) =~= t);
                        if !before.has(t) {
                            assert(before.admits(t)) by {
                                assert forall|q: int| 0 <= q < t.len() implies before.holds(
                                    t.len() - 2,
                                    #[trigger] t.remove(q),
                                ) by {
                                    assert(before.has(t.remove(q)));
                                }
                            }
                        }
                    }
                }
            }
            j += 1;
        }
        proof {
            assert(ext@.subrange(0, j as int) == ext@);
            assert forall|s: Seq<usize>| is_facet(y@, s) && pre.facets_held(s) implies #[trigger] self.has(s) by {
                let p = choose|p: int| is_facet_at(y@, s, p);
                pre.lemma_extends_all(s, p);
                assert(ext@.contains(s[p]));
                assert(is_facet_at(y@, s, p));
                assert(extends_by_one_of(y@, s, ext@));
            }
        }
    }

    /// Puts in every simplex that has one of the simplices of `frontier`, all
    /// of the same dimension, as a facet and all of whose facets are in the
    /// complex. Returns those that were not there before.
    pub fn close_level(&mut self, frontier: &Vec<Vec<usize>>) -> (next: Vec<Vec<usize>>)
        requires
            old(self).wf(),
            forall|i: int|
                0 <= i < frontier@.len() ==> old(self).has((#[trigger] frontier@[i])@) && 2 <= frontier@[i]@.len()
                    < old(self).levels(),
            forall|i: int, j: int|
                0 <= i < frontier@.len() && 0 <= j < frontier@.len() ==> (#[trigger] frontier@[i])@.len()
                    == (#[trigger] frontier@[j])@.len(),
        ensures
            final(self).wf(),
            final(self).levels() == old(self).levels(),
            forall|s: Seq<usize>|
                #[trigger] final(self).has(s) <==> old(self).has(s) || (has_facet_in(
                    frontier@,
                    frontier@.len() as int,
                    s,
                ) && old(self).facets_held(s)),
            forall|s: Seq<usize>| final(self).has(s) && !old(self).has(s) <==> #[trigger] is_listed(next@, 0, s),
            forall|e: int| 0 <= e <= 1 ==> #[trigger] final(self).count(e) == old(self).count(e),
            forall|e: int| 0 <= e < old(self).levels() ==> #[trigger] final(self).count(e) >= old(self).count(e),
            forall|e: int, k: int|
                0 <= e < old(self).levels() && 0 <= k < old(self).count(e) ==> #[trigger] final(self).at(e, k)
                    == old(self).at(e, k),
    {
        let ghost pre = *self;
        let mut next: Vec<Vec<usize>> = Vec::new();
        let mut i: usize = 0;
        while i < frontier.len()
            invariant
                pre.wf(),
                self.wf(),
                self.levels() == pre.levels(),
                i <= frontier@.len(),
                forall|a: int|
                    0 <= a < frontier@.len() ==> pre.has((#[trigger] frontier@[a])@) && 2 <= frontier@[a]@.len()
                        < pre.levels(),
                forall|a: int, b: int|
                    0 <= a < frontier@.len() && 0 <= b < frontier@.len() ==> (#[trigger] frontier@[a])@.len()
                        == (#[trigger] frontier@[b])@.len(),
                forall|s: Seq<usize>|
                    #[trigger] self.has(s) <==> pre.has(s) || (has_facet_in(frontier@, i as int, s)
                        && pre.facets_held(s)),
                forall|s: Seq<usize>| self.has(s) && !pre.has(s) <==> #[trigger] is_listed(next@, 0, s),
                forall|e: int| 0 <= e <= 1 ==> #[trigger] self.count(e) == pre.count(e),
                forall|e: int| 0 <= e < pre.levels() ==> #[trigger] self.count(e) >= pre.count(e),
                forall|e: int, k: int|
                    0 <= e < pre.levels() && 0 <= k < pre.count(e) ==> #[trigger] self.at(e, k) == pre.at(e, k),
            decreases frontier@.len() - i,
        {
            let ghost before = *self;
            let ghost next_before = next@;
            let ghost y = frontier@[i as int]@;
            proof {
                assert(pre.has(y));
            }
            self.close_over(&frontier[i], &mut next);
            proof {
                // facets of a coface of `y` have as many vertices as `y`: none of them is new
                assert forall|s: Seq<usize>| is_facet(y, s) implies (before.facets_held(s) <==> pre.facets_held(
                    s,
                )) by {
                    let pa = choose|p: int| is_facet_at(y, s, p);
                    if before.facets_held(s) {
                        assert forall|p: int| 0 <= p < s.len() implies pre.has(#[trigger] s.remove(p)) by {
                            let f = s.remove(p);
                            assert(before.has(f));
                            if !pre.has(f) {
                                assert(has_facet_in(frontier@, i as int, f));
                                let a = choose|a: int| 0 <= a < i && is_facet(#[trigger] frontier@[a]@, f);
                                let pa = choose|pa: int| is_facet_at(frontier@[a]@, f, pa);
                                assert(frontier@[a]@.len() == frontier@[i as int]@.len());
                            }
                        }
                    }
                    if pre.facets_held(s) {
                        assert forall|p: int| 0 <= p < s.len() implies before.has(#[trigger] s.remove(p)) by {
                            assert(pre.has(s.remove(p)));
                        }
                    }
                }
                assert forall|s: Seq<usize>| #[trigger]
                    self.has(s) <==> pre.has(s) || (has_facet_in(frontier@, i + 1, s) && pre.facets_held(s)) by {
                    if has_facet_in(frontier@, i as int, s) {
                        let a = choose|a: int| 0 <= a < i && is_facet(#[trigger] frontier@[a]@, s);
                        assert(is_facet(frontier@[a]@, s));
                    }
                    if is_facet(y, s) {
                        assert(is_facet(frontier@[i as int]@, s));
                    }
                    if has_facet_in(frontier@, i + 1, s) {
                        let a = choose|a: int| 0 <= a < i + 1 && is_facet(#[trigger] frontier@[a]@, s);
                        if a < i {
                            assert(has_facet_in(frontier@, i as int, s));
                        }
                    }
                    assert(self.has(s) <==> before.has(s) || (is_facet(y, s) && before.facets_held(s)));
                    assert(before.has(s) <==> pre.has(s) || (has_facet_in(frontier@, i as int, s)
                        && pre.facets_held(s)));
                }
                assert forall|s: Seq<usize>| self.has(s) && !pre.has(s) implies #[trigger] is_listed(
                    next@,
                    0,
                    s,
                ) by {
                    if before.has(s) {
                        assert(is_listed(next_before, 0, s));
                        let a = choose|a: int| 0 <= a < next_before.len() && (#[trigger] next_before[a])@ == s;
                        assert(next@[a]@ == s);
                    } else {
                        assert(is_listed(next@, next_before.len() as int, s));
                        let a = choose|a: int| next_before.len() <= a < next@.len() && (#[trigger] next@[a])@ == s;
                        assert(next@[a]@ == s);
                    }
                }
                assert forall|s: Seq<usize>| #[trigger] is_listed(next@, 0, s) implies self.has(s) && !pre.has(
                    s,
                ) by {
                    let a = choose|a: int| 0 <= a < next@.len() && (#[trigger] next@[a])@ == s;
                    if a < next_before.len() {
                        assert(next_before[a]@ == s);
                        assert(is_listed(next_before, 0, s));
                        assert(before.has(s));
                    } else {
                        assert(is_listed(next@, next_before.len() as int, s));
                    }
                }
            }
            i += 1;
        }
        next
    }

    /// Every vertex of a simplex of the complex is a vertex of the complex.
    pub proof fn lemma_vertex_of_simplex(&self, s: Seq<usize>, i: int)
        requires
            self.wf(),
            self.has(s),
            0 <= i < s.len(),
        ensures
            self.has_vertex(s[i]),
        decreases s.len(),
    {
        let d = s.len() - 1;
        let k = choose|k: int| 0 <= k < self.count(d) && #[trigger] self.at(d, k) == s;
        assert(self.level_wf(d));
        if s.len() == 1 {
            assert(s =~= point(s[0]));
        } else {
            let p = if i > 0 {
                0int
            } else {
                1int
            };
            let f = s.remove(p);
            assert(self.holds(d - 1, self.at(d, k).remove(p)));
            let ni = if i < p {
                i
            } else {
                i - 1
            };
            assert(f[ni] == s[i]);
            self.lemma_vertex_of_simplex(f, ni);
        }
    }

    /// The slot of the vertex `v` of the complex.
    pub open spec fn vertex_slot(&self, v: usize) -> int {
        choose|k: int| 0 <= k < self.count(0) && #[trigger] self.at(0, k) == point(v)
    }

    /// A simplex of the complex has at most as many vertices as the complex.
    pub proof fn lemma_simplex_fits(&self, s: Seq<usize>)
        requires
            self.wf(),
            self.has(s),
        ensures
            s.len() <= self.count(0),
    {
        let d = s.len() - 1;
        let k = choose|k: int| 0 <= k < self.count(d) && #[trigger] self.at(d, k) == s;
        assert(self.level_wf(d));
        let slots = Seq::new(s.len(), |i: int| self.vertex_slot(s[i]));
        assert forall|i: int| 0 <= i < s.len() implies 0 <= #[trigger] slots[i] < self.count(0) && self.at(
            0,
            slots[i],
        ) == point(s[i]) by {
            self.lemma_vertex_of_simplex(s, i);
        }
        assert(slots.no_duplicates()) by {
            assert forall|i: int, j: int| 0 <= i < slots.len() && 0 <= j < slots.len() && i != j implies slots[i]
                != slots[j] by {
                assert(self.at(0, slots[i]) == point(s[i]));
                assert(self.at(0, slots[j]) == point(s[j]));
                assert(point(s[i])[0] == s[i] && point(s[j])[0] == s[j]);
            }
        }
        slots.unique_seq_to_set();
        let range = vstd::set_lib::set_int_range(0, self.count(0));
        vstd::set_lib::lemma_int_range(0, self.count(0));
        assert(slots.to_set().subset_of(range)) by {
            assert forall|x: int| slots.to_set().contains(x) implies range.contains(x) by {
                let i = choose|i: int| 0 <= i < slots.len() && slots[i] == x;
                assert(0 <= slots[i] < self.count(0));
            }
        }
        vstd::set_lib::lemma_len_subset(slots.to_set(), range);
    }

    /// Adds the directed edge `simplex = [u, v]` and, with it, every simplex
    /// that the edge completes.
    ///
    /// The two ends become vertices of the complex if they were none. Where
    /// the complex already joins them by an edge, in either direction, nothing
    /// else changes. Otherwise the edge goes in, and then, dimension by
    /// dimension, each simplex that holds the edge and has all its facets in
    /// the complex: a complex that was closed over its edges is so again.
    pub fn add(&mut self, simplex: Vec<usize>)
        requires
            old(self).wf(),
            simplex@.len() == 2,
            simplex@[0] != simplex@[1],
        ensures
            final(self).wf(),
            final(self).levels() >= old(self).levels(),
            forall|s: Seq<usize>| old(self).has(s) ==> #[trigger] final(self).has(s),
            forall|s: Seq<usize>|
                #[trigger] final(self).has(s) && !old(self).has(s) ==> s == point(simplex@[0]) || s == point(
                    simplex@[1],
                ) || (places(s, simplex@[0], simplex@[1]) && !old(self).adjacent(simplex@[0], simplex@[1])),
            final(self).has_vertex(simplex@[0]),
            final(self).has_vertex(simplex@[1]),
            !old(self).has_edge(simplex@[1], simplex@[0]) ==> final(self).has_edge(simplex@[0], simplex@[1]),
            old(self).is_flag() ==> final(self).is_flag(),
            is_insertion(*old(self), *final(self), simplex@[0], simplex@[1]),
            has_edge_more(*old(self), *final(self), simplex@[0], simplex@[1]),
            keeps_slots(*old(self), *final(self)),
    {
        let u = simplex[0];
        let v = simplex[1];
        let ghost start = *self;
        let ghost e = simplex@;
        self.add_vertex(u);
        let ghost one = *self;
        self.add_vertex(v);
        let ghost two = *self;
        if self.simplex_indices.len() < 2 {
            self.push_level();
        }
        let ghost seeded = *self;
        proof {
            assert(keeps_slots(start, one)) by {
                assert forall|e: int, k: int| 0 <= e < start.levels() && 0 <= k < start.count(e) implies #[trigger] keeps_slot(
                    start,
                    one,
                    e,
                    k,
                ) by {
                    assert(one.at(e, k) == start.at(e, k));
                    assert(one.count(e) >= start.count(e));
                }
            }
            assert(keeps_slots(one, two)) by {
                assert forall|e: int, k: int| 0 <= e < one.levels() && 0 <= k < one.count(e) implies #[trigger] keeps_slot(
                    one,
                    two,
                    e,
                    k,
                ) by {
                    assert(two.at(e, k) == one.at(e, k));
                    assert(two.count(e) >= one.count(e));
                }
            }
            assert(keeps_slots(two, seeded)) by {
                assert forall|e: int, k: int| 0 <= e < two.levels() && 0 <= k < two.count(e) implies #[trigger] keeps_slot(
                    two,
                    seeded,
                    e,
                    k,
                ) by {
                    assert(seeded.at(e, k) == two.at(e, k));
                    assert(seeded.count(e) == two.count(e));
                }
            }
            lemma_keeps_slots(start, one, two);
            lemma_keeps_slots(start, two, seeded);
            assert(e == edge(u, v));
            assert(point(u).len() == 1 && point(v).len() == 1 && edge(u, v).len() == 2);
            assert(seeded.has(point(u)) && seeded.has(point(v)));
            assert(e.remove(0) == point(v));
            assert(e.remove(1) == point(u));
            assert(edge(u, v)[0] == u && edge(u, v)[1] == v);
            assert(seeded.has_edge(u, v) <==> start.has_edge(u, v)) by {
                assert(seeded.has(edge(u, v)) <==> start.has(edge(u, v)));
            }
            assert(seeded.has_edge(v, u) <==> start.has_edge(v, u)) by {
                assert(seeded.has(edge(v, u)) <==> start.has(edge(v, u)));
            }
            assert(seeded.admits(e) <==> !start.adjacent(u, v)) by {
                assert forall|p: int| 0 <= p < e.len() implies seeded.holds(e.len() - 2, #[trigger] e.remove(p)) by {}
            }
        }
        let inserted = self.try_insert(&simplex);
        proof {
            assert(keeps_slots(seeded, *self)) by {
                assert forall|e: int, k: int| 0 <= e < seeded.levels() && 0 <= k < seeded.count(e) implies #[trigger] keeps_slot(
                    seeded,
                    *self,
                    e,
                    k,
                ) by {
                    assert(self.at(e, k) == seeded.at(e, k));
                    assert(self.count(e) >= seeded.count(e));
                }
            }
            lemma_keeps_slots(start, seeded, *self);
            assert(self.has(point(u)) && self.has(point(v)));
            assert(seeded.has(edge(u, v)) ==> self.has(edge(u, v)));
            assert forall|s: Seq<usize>| s.len() >= 2 implies (#[trigger] self.has(s) <==> start.has(s) || (
            inserted && s == e)) by {
                assert(seeded.has(s) <==> start.has(s));
            }
            if !inserted {
                assert forall|t: Seq<usize>| t.len() >= 3 && #[trigger] self.facets_held(t) implies start.facets_held(
                    t,
                ) by {
                    assert forall|p: int| 0 <= p < t.len() implies start.has(#[trigger] t.remove(p)) by {
                        assert(self.has(t.remove(p)));
                    }
                }
            }
        }
        if !inserted {
            proof {
                if start.is_flag() {
                    assert forall|t: Seq<usize>| t.len() >= 3 && #[trigger] self.facets_held(t) implies self.has(
                        t,
                    ) by {
                        assert(start.facets_held(t));
                    }
                }
                assert(is_insertion(start, *self, u, v));
                lemma_insertion_edges(start, *self, u, v);
            }
            return ;
        }
        proof {
            assert(places(e, u, v)) by {
                assert(e[0] == u && e[1] == v);
            }
        }
        let mut frontier: Vec<Vec<usize>> = Vec::new();
        frontier.push(simplex);
        proof {
            assert(frontier@[0]@ == e);
            assert forall|s: Seq<usize>| s.len() == 2 && self.has(s) && !start.has(s) implies #[trigger] is_listed(
                frontier@,
                0,
                s,
            ) by {
                assert(frontier@[0]@ == s);
            }
        }
        let mut d: usize = 1;
        while frontier.len() > 0 && d < self.simplices[0].len()
            invariant
                self.wf(),
                start.wf(),
                !start.adjacent(u, v),
                1 <= d < self.levels(),
                self.levels() >= start.levels(),
                keeps_slots(start, *self),
                forall|s: Seq<usize>| start.has(s) ==> #[trigger] self.has(s),
                forall|s: Seq<usize>|
                    #[trigger] self.has(s) && !start.has(s) ==> s == point(u) || s == point(v) || places(
                        s,
                        u,
                        v,
                    ),
                self.has_vertex(u),
                self.has_vertex(v),
                self.has_edge(u, v),
                forall|i: int|
                    0 <= i < frontier@.len() ==> (#[trigger] frontier@[i])@.len() == d + 1 && self.has(
                        frontier@[i]@,
                    ) && places(frontier@[i]@, u, v),
                forall|s: Seq<usize>|
                    s.len() == d + 1 && self.has(s) && !start.has(s) ==> #[trigger] is_listed(frontier@, 0, s),
                forall|s: Seq<usize>| s.len() > d + 1 && #[trigger] self.has(s) ==> start.has(s),
                start.is_flag() ==> self.flag_upto(d + 1),
            decreases self.count(0) - d,
        {
            let ghost round_start = *self;
            if self.simplex_indices.len() - 1 == d {
                self.push_level();
            }
            let ghost before = *self;
            proof {
                assert(point(u).len() == 1 && point(v).len() == 1 && edge(u, v).len() == 2);
                assert(round_start.has(point(u)) && round_start.has(point(v)) && round_start.has(edge(u, v)));
                assert(before.has(point(u)) && before.has(point(v)) && before.has(edge(u, v)));
                assert forall|t: Seq<usize>| #[trigger] before.facets_held(t) <==> round_start.facets_held(t) by {
                    if before.facets_held(t) {
                        assert forall|p: int| 0 <= p < t.len() implies round_start.has(#[trigger] t.remove(p)) by {
                            assert(before.has(t.remove(p)));
                        }
                    }
                    if round_start.facets_held(t) {
                        assert forall|p: int| 0 <= p < t.len() implies before.has(#[trigger] t.remove(p)) by {
                            assert(round_start.has(t.remove(p)));
                        }
                    }
                }
                if start.is_flag() {
                    assert forall|t: Seq<usize>| 3 <= t.len() <= d + 1 && #[trigger] before.facets_held(t) implies before.has(
                        t,
                    ) by {
                        assert(round_start.facets_held(t));
                    }
                }
            }
            let next = self.close_level(&frontier);
            proof {
                assert(keeps_slots(round_start, before)) by {
                    assert forall|e: int, k: int|
                        0 <= e < round_start.levels() && 0 <= k < round_start.count(e) implies #[trigger] keeps_slot(
                        round_start,
                        before,
                        e,
                        k,
                    ) by {
                        assert(before.at(e, k) == round_start.at(e, k));
                        assert(before.count(e) == round_start.count(e));
                    }
                }
                assert(keeps_slots(before, *self)) by {
                    assert forall|e: int, k: int| 0 <= e < before.levels() && 0 <= k < before.count(e) implies #[trigger] keeps_slot(
                        before,
                        *self,
                        e,
                        k,
                    ) by {
                        assert(self.at(e, k) == before.at(e, k));
                        assert(self.count(e) >= before.count(e));
                    }
                }
                lemma_keeps_slots(start, round_start, before);
                lemma_keeps_slots(start, before, *self);
                assert(self.has(point(u)) && self.has(point(v)) && self.has(edge(u, v)));
                // what came in has one vertex more than the frontier, and holds the edge
                assert forall|s: Seq<usize>| self.has(s) && !before.has(s) implies s.len() == d + 2 && places(
                    s,
                    u,
                    v,
                ) by {
                    assert(has_facet_in(frontier@, frontier@.len() as int, s));
                    let i = choose|i: int| 0 <= i < frontier@.len() && is_facet(#[trigger] frontier@[i]@, s);
                    let p = choose|p: int| is_facet_at(frontier@[i]@, s, p);
                    lemma_places_in_facet(s, p, u, v);
                }
                assert forall|s: Seq<usize>| #[trigger] self.has(s) && !start.has(s) implies s == point(u) || s
                    == point(v) || places(s, u, v) by {
                    if before.has(s) {
                        assert(round_start.has(s));
                    }
                }
                assert forall|i: int| 0 <= i < next@.len() implies (#[trigger] next@[i])@.len() == d + 2
                    && self.has(next@[i]@) && places(next@[i]@, u, v) by {
                    assert(is_listed(next@, 0, next@[i]@));
                }
                assert forall|s: Seq<usize>| s.len() == d + 2 && self.has(s) && !start.has(s) implies #[trigger] is_listed(
                    next@,
                    0,
                    s,
                ) by {
                    if before.has(s) {
                        assert(round_start.has(s));
                    }
                }
                assert forall|s: Seq<usize>| s.len() > d + 2 && #[trigger] self.has(s) implies start.has(s) by {
                    assert(before.has(s));
                    assert(round_start.has(s));
                }
                if start.is_flag() {
                    assert forall|t: Seq<usize>| 3 <= t.len() <= d + 2 && #[trigger] self.facets_held(t) implies self.has(
                        t,
                    ) by {
                        assert forall|p: int| 0 <= p < t.len() implies before.has(#[trigger] t.remove(p)) by {
                            assert(self.has(t.remove(p)));
                        }
                        assert(before.facets_held(t));
                        if t.len() <= d + 1 {
                            assert(before.has(t));
                        } else if exists|p: int| 0 <= p < t.len() && !start.has(#[trigger] t.remove(p)) {
                            let p = choose|p: int| 0 <= p < t.len() && !start.has(#[trigger] t.remove(p));
                            let f = t.remove(p);
                            assert(before.has(f));
                            assert(round_start.has(f));
                            assert(is_listed(frontier@, 0, f));
                            let i = choose|i: int| 0 <= i < frontier@.len() && (#[trigger] frontier@[i])@ == f;
                            assert(is_facet_at(frontier@[i]@, t, p));
                            assert(is_facet(frontier@[i]@, t));
                            assert(has_facet_in(frontier@, frontier@.len() as int, t));
                        } else {
                            assert(start.facets_held(t));
                            assert(start.has(t));
                        }
                    }
                }
            }
            frontier = next;
            d += 1;
        }
        proof {
            if start.is_flag() {
                assert forall|t: Seq<usize>| t.len() >= 3 && #[trigger] self.facets_held(t) implies self.has(t) by {
                    if t.len() <= d + 1 {
                    } else if exists|p: int| 0 <= p < t.len() && !start.has(#[trigger] t.remove(p)) {
                        let p = choose|p: int| 0 <= p < t.len() && !start.has(#[trigger] t.remove(p));
                        let f = t.remove(p);
                        assert(self.has(f));
                        assert(f.len() == d + 1);
                        assert(is_listed(frontier@, 0, f));
                        self.lemma_simplex_fits(f);
                    } else {
                        assert(start.facets_held(t));
                        assert(start.has(t));
                    }
                }
            }
            assert(is_insertion(start, *self, u, v));
            lemma_insertion_edges(start, *self, u, v);
        }
    }
}

} // verus!
