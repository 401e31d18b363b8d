//! What holds of every well-formed complex, and of an edge that is added and
//! then removed.

use crate::complex::SimplicialComplex;
use crate::simplex::{edge, is_face, lemma_edge_face, lemma_face_len, places, point};
use vstd::prelude::*;

verus! {

/// `after` is what a complex `before` becomes when the edge from `u` to `v`
/// is added to it: nothing is lost; what is new is one of the two ends or
/// holds `u` before `v`, and comes in only where the complex did not join the
/// two by an edge; the ends are vertices, the edge is there unless the edge
/// back was; and a complex closed over its edges stays so.
pub open spec fn is_insertion(before: SimplicialComplex, after: SimplicialComplex, u: usize, v: usize) -> bool {
    &&& after.wf()
    &&& forall|s: Seq<usize>| before.has(s) ==> #[trigger] after.has(s)
    &&& forall|s: Seq<usize>|
        #[trigger] after.has(s) && !before.has(s) ==> s == point(u) || s == point(v) || (places(s, u, v)
            && !before.adjacent(u, v))
    &&& after.has_vertex(u)
    &&& after.has_vertex(v)
    &&& !before.has_edge(v, u) ==> after.has_edge(u, v)
    &&& before.is_flag() ==> after.is_flag()
}

/// `after` is what a complex `before` becomes when the simplex `x` is
/// removed from it: it holds what `before` held, but for `x` and all that had
/// `x` as a face.
pub open spec fn is_removal(before: SimplicialComplex, after: SimplicialComplex, x: Seq<usize>) -> bool {
    &&& after.wf()
    &&& forall|s: Seq<usize>| #[trigger] after.has(s) <==> before.has(s) && !is_face(x, s)
}

/// The edges and vertices of `after` are those of `before` and, unless the
/// edge back was there, the edge from `u` to `v` with its two ends.
pub open spec fn has_edge_more(before: SimplicialComplex, after: SimplicialComplex, u: usize, v: usize) -> bool {
    &&& forall|a: usize, b: usize|
        #[trigger] after.has_edge(a, b) <==> before.has_edge(a, b) || (a == u && b == v && !before.has_edge(
            v,
            u,
        ))
    &&& forall|w: usize| #[trigger] after.has_vertex(w) <==> before.has_vertex(w) || w == u || w == v
}

/// The edges and vertices of `after` are those of `before`, but for the
/// simplex `x` where that is an edge.
pub open spec fn has_simplex_less(before: SimplicialComplex, after: SimplicialComplex, x: Seq<usize>) -> bool {
    &&& forall|a: usize, b: usize| #[trigger] after.has_edge(a, b) <==> before.has_edge(a, b) && edge(a, b) != x
    &&& forall|w: usize| #[trigger] after.has_vertex(w) <==> before.has_vertex(w)
}

/// What the addition of an edge does to the simplices says what it does to
/// the edges and the vertices.
pub proof fn lemma_insertion_edges(before: SimplicialComplex, after: SimplicialComplex, u: usize, v: usize)
    requires
        u != v,
        is_insertion(before, after, u, v),
    ensures
        has_edge_more(before, after, u, v),
{
    assert(point(u).len() == 1 && point(v).len() == 1 && edge(u, v).len() == 2);
    assert forall|a: usize, b: usize|
        #[trigger] after.has_edge(a, b) <==> before.has_edge(a, b) || (a == u && b == v && !before.has_edge(
            v,
            u,
        )) by {
        let s = edge(a, b);
        assert(s.len() == 2 && s[0] == a && s[1] == b);
        if before.has_edge(a, b) {
            assert(before.has(s));
            assert(after.has(s));
        }
        if after.has_edge(a, b) && !before.has_edge(a, b) {
            assert(after.has(s) && !before.has(s));
            assert(places(s, u, v) && !before.adjacent(u, v));
            let (i, j) = choose|i: int, j: int| 0 <= i < j < s.len() && #[trigger] s[i] == u && #[trigger] s[j] == v;
            assert(i == 0 && j == 1);
        }
        if a == u && b == v && !before.has_edge(v, u) {
            assert(after.has_edge(u, v));
        }
    }
    assert forall|w: usize| #[trigger] after.has_vertex(w) <==> before.has_vertex(w) || w == u || w == v by {
        let s = point(w);
        assert(s.len() == 1 && s[0] == w);
        if before.has_vertex(w) {
            assert(before.has(s));
            assert(after.has(s));
        }
        if after.has_vertex(w) && !before.has_vertex(w) {
            assert(after.has(s) && !before.has(s));
            if s == point(u) {
                assert(point(u)[0] == u);
            }
            if s == point(v) {
                assert(point(v)[0] == v);
            }
            if places(s, u, v) {
            }
        }
    }
}

/// What the removal of a simplex of dimension 1 or more does to the simplices
/// says what it does to the edges and the vertices.
pub proof fn lemma_removal_edges(before: SimplicialComplex, after: SimplicialComplex, x: Seq<usize>)
    requires
        x.len() >= 2,
        is_removal(before, after, x),
    ensures
        has_simplex_less(before, after, x),
{
    assert forall|a: usize, b: usize| #[trigger] after.has_edge(a, b) <==> before.has_edge(a, b) && edge(a, b)
        != x by {
        let s = edge(a, b);
        assert(s.len() == 2);
        assert(after.has(s) <==> before.has(s) && !is_face(x, s));
        if is_face(x, s) {
            lemma_face_len(x, s);
        }
    }
    assert forall|w: usize| #[trigger] after.has_vertex(w) <==> before.has_vertex(w) by {
        let s = point(w);
        assert(s.len() == 1);
        assert(after.has(s) <==> before.has(s) && !is_face(x, s));
        if is_face(x, s) {
            lemma_face_len(x, s);
        }
    }
}

/// Every simplex of `before` has the same slot in `after`: slots are stable
/// while nothing is removed.
pub open spec fn keeps_slots(before: SimplicialComplex, after: SimplicialComplex) -> bool {
    forall|e: int, k: int|
        0 <= e < before.levels() && 0 <= k < before.count(e) ==> #[trigger] keeps_slot(before, after, e, k)
}

/// Slot `k` of dimension `e` holds the same simplex in both complexes.
pub open spec fn keeps_slot(before: SimplicialComplex, after: SimplicialComplex, e: int, k: int) -> bool {
    k < after.count(e) && after.at(e, k) == before.at(e, k)
}

/// Any two simplices of a dimension of `after` stand in `before` in the same
/// order of their slots: a removal moves slots up, but never past each other.
pub open spec fn keeps_order(before: SimplicialComplex, after: SimplicialComplex) -> bool {
    forall|e: int, k1: int, k2: int|
        0 <= k1 < k2 < after.count(e) ==> before.in_order(e, #[trigger] after.at(e, k1), #[trigger] after.at(e, k2))
}

/// Stable slots stay stable over a second change.
pub proof fn lemma_keeps_slots(a: SimplicialComplex, b: SimplicialComplex, c: SimplicialComplex)
    requires
        keeps_slots(a, b),
        keeps_slots(b, c),
        a.levels() <= b.levels(),
    ensures
        keeps_slots(a, c),
{
    assert forall|e: int, k: int| 0 <= e < a.levels() && 0 <= k < a.count(e) implies #[trigger] keeps_slot(
        a,
        c,
        e,
        k,
    ) by {
        assert(keeps_slot(a, b, e, k));
        assert(keeps_slot(b, c, e, k));
    }
}

/// The order of the slots stays over a second removal.
pub proof fn lemma_keeps_order(a: SimplicialComplex, b: SimplicialComplex, c: SimplicialComplex)
    requires
        keeps_order(a, b),
        keeps_order(b, c),
    ensures
        keeps_order(a, c),
{
    assert forall|e: int, k1: int, k2: int| 0 <= k1 < k2 < c.count(e) implies a.in_order(
        e,
        #[trigger] c.at(e, k1),
        #[trigger] c.at(e, k2),
    ) by {
        assert(b.in_order(e, c.at(e, k1), c.at(e, k2)));
        let (j1, j2) = choose|j1: int, j2: int|
            0 <= j1 < j2 < b.count(e) && #[trigger] b.at(e, j1) == c.at(e, k1) && #[trigger] b.at(e, j2) == c.at(
                e,
                k2,
            );
        assert(a.in_order(e, b.at(e, j1), b.at(e, j2)));
    }
}

/// The two complexes hold the same simplices.
pub open spec fn same_simplices(a: SimplicialComplex, b: SimplicialComplex) -> bool {
    forall|s: Seq<usize>| a.has(s) <==> #[trigger] b.has(s)
}

impl SimplicialComplex {
    /// In dimension `e`, the slot of `first` comes before the slot of
    /// `second`.
    pub open spec fn in_order(&self, e: int, first: Seq<usize>, second: Seq<usize>) -> bool {
        exists|j1: int, j2: int|
            0 <= j1 < j2 < self.count(e) && #[trigger] self.at(e, j1) == first && #[trigger] self.at(e, j2)
                == second
    }

    /// The closure invariant: with a simplex of dimension 1 or more, a
    /// well-formed complex holds each of its facets.
    pub proof fn lemma_facets_present(&self, s: Seq<usize>, p: int)
        requires
            self.wf(),
            self.has(s),
            s.len() >= 2,
            0 <= p < s.len(),
        ensures
            self.has(s.remove(p)),
    {
        let d = s.len() - 1;
        let k = choose|k: int| 0 <= k < self.count(d) && #[trigger] self.at(d, k) == s;
        assert(self.level_wf(d));
        assert(self.holds(d - 1, self.at(d, k).remove(p)));
    }

    /// With a simplex, a well-formed complex holds each of its faces.
    pub proof fn lemma_faces_present(&self, x: Seq<usize>, s: Seq<usize>)
        requires
            self.wf(),
            self.has(s),
            is_face(x, s),
            x.len() >= 1,
        ensures
            self.has(x),
        decreases s.len(),
    {
        if x != s {
            let p = choose|p: int| 0 <= p < s.len() && is_face(x, #[trigger] s.remove(p));
            self.lemma_facets_present(s, p);
            self.lemma_faces_present(x, s.remove(p));
        }
    }

    /// Every pair of vertices of `t`, taken in the order of `t`, is joined by
    /// an edge of the complex.
    pub open spec fn is_clique(&self, t: Seq<usize>) -> bool {
        forall|i: int, j: int| 0 <= i < j < t.len() ==> self.has_edge(#[trigger] t[i], #[trigger] t[j])
    }

    /// A complex that is closed over its edges is the directed clique complex
    /// of its edges: it holds a sequence of two or more vertices exactly if
    /// each pair of them, in the order of the sequence, is joined by an edge.
    pub proof fn lemma_clique_complex(&self, t: Seq<usize>)
        requires
            self.wf(),
            self.is_flag(),
            t.len() >= 2,
        ensures
            self.has(t) <==> self.is_clique(t),
        decreases t.len(),
    {
        if self.has(t) {
            assert forall|i: int, j: int| 0 <= i < j < t.len() implies self.has_edge(
                #[trigger] t[i],
                #[trigger] t[j],
            ) by {
                self.lemma_pairs_are_edges(t, i, j);
            }
        }
        if self.is_clique(t) {
            if t.len() == 2 {
                assert(self.has_edge(t[0], t[1]));
                assert(t =~= edge(t[0], t[1]));
            } else {
                assert forall|p: int| 0 <= p < t.len() implies self.has(#[trigger] t.remove(p)) by {
                    let f = t.remove(p);
                    assert forall|i: int, j: int| 0 <= i < j < f.len() implies self.has_edge(
                        #[trigger] f[i],
                        #[trigger] f[j],
                    ) by {
                        let oi = if i < p {
                            i
                        } else {
                            i + 1
                        };
                        let oj = if j < p {
                            j
                        } else {
                            j + 1
                        };
                        assert(f[i] == t[oi] && f[j] == t[oj]);
                    }
                    self.lemma_clique_complex(f);
                }
                assert(self.facets_held(t));
            }
        }
    }

    /// A complex that is closed over its edges is so again once an edge, and
    /// all that had it as a face, is removed.
    pub proof fn lemma_flag_without_edge(&self, after: SimplicialComplex, u: usize, v: usize)
        requires
            self.wf(),
            self.is_flag(),
            is_removal(*self, after, edge(u, v)),
        ensures
            after.is_flag(),
    {
        assert forall|t: Seq<usize>| t.len() >= 3 && #[trigger] after.facets_held(t) implies after.has(t) by {
            assert forall|p: int| 0 <= p < t.len() implies self.has(#[trigger] t.remove(p)) by {
                assert(after.has(t.remove(p)));
            }
            assert(self.facets_held(t));
            assert(self.has(t));
            if is_face(edge(u, v), t) {
                lemma_edge_face(u, v, t);
                let (i, j) = choose|i: int, j: int|
                    0 <= i < j < t.len() && #[trigger] t[i] == u && #[trigger] t[j] == v;
                let k = if i > 0 {
                    0int
                } else if j > 1 {
                    1int
                } else {
                    2int
                };
                let f = t.remove(k);
                let ni = if i < k {
                    i
                } else {
                    i - 1
                };
                let nj = if j < k {
                    j
                } else {
                    j - 1
                };
                assert(f[ni] == u && f[nj] == v);
                assert(places(f, u, v));
                lemma_edge_face(u, v, f);
                assert(after.has(f));
            }
        }
    }

    /// Two well-formed complexes that hold the same simplices of dimension `d`
    /// hold equally many of them.
    pub proof fn lemma_same_count(&self, other: SimplicialComplex, d: int)
        requires
            self.wf(),
            other.wf(),
            forall|s: Seq<usize>| self.holds(d, s) <==> #[trigger] other.holds(d, s),
        ensures
            self.count(d) == other.count(d),
    {
        if self.count(d) > 0 {
            assert(self.holds(d, self.at(d, 0)));
            assert(other.holds(d, self.at(d, 0)) <==> self.holds(d, self.at(d, 0)));
        }
        if other.count(d) > 0 {
            assert(other.holds(d, other.at(d, 0)));
        }
        if self.count(d) > 0 && other.count(d) > 0 {
            assert(self.level_wf(d));
            assert(other.level_wf(d));
            let mine = Seq::new(self.count(d) as nat, |k: int| self.at(d, k));
            let theirs = Seq::new(other.count(d) as nat, |k: int| other.at(d, k));
            assert(mine.no_duplicates());
            assert(theirs.no_duplicates());
            mine.unique_seq_to_set();
            theirs.unique_seq_to_set();
            assert(mine.to_set() =~= theirs.to_set()) by {
                assert forall|s: Seq<usize>| mine.to_set().contains(s) <==> theirs.to_set().contains(s) by {
                    if mine.to_set().contains(s) {
                        let k = choose|k: int| 0 <= k < mine.len() && mine[k] == s;
                        assert(self.at(d, k) == s);
                        assert(self.holds(d, s));
                        assert(other.holds(d, s) <==> self.holds(d, s));
                        let j = choose|j: int| 0 <= j < other.count(d) && #[trigger] other.at(d, j) == s;
                        assert(theirs[j] == s);
                    }
                    if theirs.to_set().contains(s) {
                        let k = choose|k: int| 0 <= k < theirs.len() && theirs[k] == s;
                        assert(other.at(d, k) == s);
                        assert(other.holds(d, s));
                        assert(self.holds(d, s));
                        let j = choose|j: int| 0 <= j < self.count(d) && #[trigger] self.at(d, j) == s;
                        assert(mine[j] == s);
                    }
                }
            }
        }
    }

    /// Above its stores a complex holds nothing, however far one looks.
    pub proof fn lemma_populated_above(&self, m: int)
        requires
            m >= self.levels(),
        ensures
            self.populated_below(m) == self.populated(),
        decreases m,
    {
        if m > self.levels() {
            self.lemma_populated_above(m - 1);
        }
    }

    /// Two complexes with the same count in every dimension have the same
    /// populated dimensions.
    pub proof fn lemma_populated_same(&self, other: SimplicialComplex, m: int)
        requires
            forall|d: int| self.count(d) == #[trigger] other.count(d),
        ensures
            self.populated_below(m) == other.populated_below(m),
        decreases m,
    {
        if m > 0 {
            assert(self.count(m - 1) == other.count(m - 1));
            self.lemma_populated_same(other, m - 1);
        }
    }
}

/// Adding an edge and then removing it gives back what was there: where the
/// two ends were vertices of the complex that no edge joined, the complex
/// holds the same simplices as before, and so the same number in every
/// dimension.
pub proof fn lemma_insert_then_remove(
    before: SimplicialComplex,
    with_edge: SimplicialComplex,
    after: SimplicialComplex,
    u: usize,
    v: usize,
)
    requires
        before.wf(),
        before.has_vertex(u),
        before.has_vertex(v),
        !before.adjacent(u, v),
        is_insertion(before, with_edge, u, v),
        is_removal(with_edge, after, edge(u, v)),
    ensures
        same_simplices(before, after),
        forall|d: int| before.count(d) == #[trigger] after.count(d),
        before.populated() == after.populated(),
{
    assert forall|s: Seq<usize>| before.has(s) <==> #[trigger] after.has(s) by {
        lemma_edge_face(u, v, s);
        if before.has(s) {
            if places(s, u, v) {
                let (i, j) = choose|i: int, j: int|
                    0 <= i < j < s.len() && #[trigger] s[i] == u && #[trigger] s[j] == v;
                before.lemma_pairs_are_edges(s, i, j);
            }
            assert(with_edge.has(s));
        }
        if after.has(s) {
            assert(with_edge.has(s));
            assert(point(u).len() == 1 && point(v).len() == 1);
        }
    }
    assert forall|d: int| before.count(d) == #[trigger] after.count(d) by {
        assert forall|s: Seq<usize>| before.holds(d, s) <==> #[trigger] after.holds(d, s) by {
            if before.holds(d, s) {
                let k = choose|k: int| 0 <= k < before.count(d) && #[trigger] before.at(d, k) == s;
                assert(before.level_wf(d));
                assert(s.len() == d + 1);
                assert(before.has(s));
                assert(after.has(s));
            }
            if after.holds(d, s) {
                let k = choose|k: int| 0 <= k < after.count(d) && #[trigger] after.at(d, k) == s;
                assert(after.level_wf(d));
                assert(s.len() == d + 1);
                assert(after.has(s));
                assert(before.has(s));
            }
        }
        before.lemma_same_count(after, d);
    }
    let top = if before.levels() > after.levels() {
        before.levels()
    } else {
        after.levels()
    };
    before.lemma_populated_above(top);
    after.lemma_populated_above(top);
    before.lemma_populated_same(after, top);
}

} // verus!
