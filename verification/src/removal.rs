//! Taking simplices out of the complex: a simplex leaves only after every
//! simplex that has it as a face.

use crate::complex::{is_cofacet_before, SimplicialComplex};
use crate::laws::{has_simplex_less, is_removal, keeps_order, lemma_keeps_order, lemma_removal_edges};
use crate::matrix::{clone_matrix, entry, ncols, nrows, remove_column, remove_row};
use crate::renumber::{compact_slots, is_compaction, lemma_one_gap, new_slot, one_slot_each};
use crate::simplex::{
    are_faces_of, combine_simplices, edge, extends, facet, is_combination, is_face, is_facet, is_facet_at,
    lemma_extends_vertices, lemma_face_len, lemma_face_of_face, lemma_facet_is_face, lemma_facets_fix_simplex,
    lemma_one_order, lemma_remove_distinct, places, position, views,
};
use crate::slots::{pairs_without, simplex_in, slot_of, table_pairs, take_simplex};
use vstd::prelude::*;

verus! {

/// The slot before the deletion of slot `k` from which slot `j` is filled
/// afterwards.
pub open spec fn skip(k: int, j: int) -> int {
    if j < k {
        j
    } else {
        j + 1
    }
}

impl SimplicialComplex {
    /// Some simplex of the complex has `x` as a facet.
    pub open spec fn has_cofaces(&self, x: Seq<usize>) -> bool {
        exists|j: int| 0 <= j < self.count(x.len() as int) && is_facet(x, #[trigger] self.at(x.len() as int, j))
    }

    /// Any two vertices of a simplex of the complex, taken in the order of the
    /// simplex, are joined by an edge of the complex.
    pub proof fn lemma_pairs_are_edges(&self, s: Seq<usize>, i: int, j: int)
        requires
            self.wf(),
            self.has(s),
            0 <= i < j < s.len(),
        ensures
            self.has_edge(s[i], s[j]),
        decreases s.len(),
    {
        let d = s.len() - 1;
        let k = choose|k: int| 0 <= k < self.count(d) && #[trigger] self.at(d, k) == s;
        assert(self.level_wf(d));
        if s.len() == 2 {
            assert(s =~= edge(s[0], s[1]));
        } else {
            let p = if i > 0 {
                0int
            } else if j > 1 {
                1int
            } else {
                2int
            };
            let f = s.remove(p);
            assert(self.holds(d - 1, self.at(d, k).remove(p)));
            let ni = if i < p {
                i
            } else {
                i - 1
            };
            let nj = if j < p {
                j
            } else {
                j - 1
            };
            assert(f[ni] == s[i] && f[nj] == s[j]);
            assert(f.len() == s.len() - 1);
            self.lemma_pairs_are_edges(f, ni, nj);
        }
    }

    /// Two simplices of the complex with the same vertices are the same
    /// simplex: the edges of the complex fix the order.
    pub proof fn lemma_vertices_fix_simplex(&self, x: Seq<usize>, z: Seq<usize>)
        requires
            self.wf(),
            self.has(x),
            self.has(z),
            x.len() == z.len(),
            forall|v: usize| x.contains(v) <==> z.contains(v),
        ensures
            x == z,
    {
        let d = x.len() - 1;
        let kx = choose|k: int| 0 <= k < self.count(d) && #[trigger] self.at(d, k) == x;
        let kz = choose|k: int| 0 <= k < self.count(d) && #[trigger] self.at(d, k) == z;
        assert(self.level_wf(d));
        assert(x.no_duplicates() && z.no_duplicates());
        assert forall|a: usize, b: usize| places(x, a, b) implies places(z, a, b) by {
            let (i, j) = choose|i: int, j: int| 0 <= i < j < x.len() && #[trigger] x[i] == a && #[trigger] x[j] == b;
            self.lemma_pairs_are_edges(x, i, j);
            assert(x.contains(a) && x.contains(b));
            let ia = choose|ia: int| 0 <= ia < z.len() && z[ia] == a;
            let ib = choose|ib: int| 0 <= ib < z.len() && z[ib] == b;
            assert(a != b);
            if ib < ia {
                self.lemma_pairs_are_edges(z, ib, ia);
                assert(!(self.has_edge(a, b) && self.has_edge(b, a)));
            } else {
                assert(z[ia] == a && z[ib] == b);
            }
        }
        lemma_one_order(x, z);
    }

    /// A simplex of the complex that has `x` as a face, and is not `x`, has a
    /// face with one vertex more than `x` that has `x` as a facet: the complex
    /// then holds a coface of `x`.
    pub proof fn lemma_face_has_coface(&self, x: Seq<usize>, s: Seq<usize>)
        requires
            self.wf(),
            self.has(s),
            is_face(x, s),
            x != s,
            x.len() >= 1,
        ensures
            self.has_cofaces(x),
        decreases s.len(),
    {
        let d = s.len() - 1;
        let k = choose|k: int| 0 <= k < self.count(d) && #[trigger] self.at(d, k) == s;
        assert(self.level_wf(d));
        let p = choose|p: int| 0 <= p < s.len() && is_face(x, #[trigger] s.remove(p));
        let f = s.remove(p);
        lemma_face_len(x, f);
        assert(self.holds(d - 1, self.at(d, k).remove(p)));
        if x == f {
            assert(is_facet_at(x, s, p));
            assert(self.at(x.len() as int, k) == s);
        } else {
            self.lemma_face_has_coface(x, f);
        }
    }

    /// Renumbers the slots of dimension `index` to `0, 1, ..` without a gap,
    /// the simplices keeping the order of their slots. The other stores stay
    /// as they are.
    pub fn update_simplex_indices(&mut self, index: usize)
        requires
            index < old(self).simplex_indices@.len(),
            one_slot_each(table_pairs(old(self).simplex_indices@[index as int])),
        ensures
            final(self).simplices == old(self).simplices,
            final(self).boundary_matrices == old(self).boundary_matrices,
            final(self).simplex_indices@.len() == old(self).simplex_indices@.len(),
            forall|e: int|
                0 <= e < old(self).simplex_indices@.len() && e != index ==> #[trigger] final(self).simplex_indices@[e]
                    == old(self).simplex_indices@[e],
            is_compaction(
                table_pairs(old(self).simplex_indices@[index as int]),
                table_pairs(final(self).simplex_indices@[index as int]),
            ),
    {
        compact_slots(&mut self.simplex_indices[index]);
    }

    /// Takes the simplex `x`, of dimension 1 or more, out of the complex. No
    /// simplex of the complex may have it as a facet. The simplices in the
    /// slots behind it move up by one slot.
    pub fn delete_simplex(&mut self, x: &Vec<usize>)
        requires
            old(self).wf(),
            x@.len() >= 2,
            old(self).has(x@),
            !old(self).has_cofaces(x@),
        ensures
            final(self).wf(),
            final(self).levels() == old(self).levels(),
            forall|s: Seq<usize>| #[trigger] final(self).has(s) <==> old(self).has(s) && s != x@,
            forall|e: int|
                0 <= e < old(self).levels() ==> #[trigger] final(self).count(e) == old(self).count(e) - (
                if e == x@.len() - 1 {
                    1int
                } else {
                    0int
                }),
            forall|e: int, k: int|
                0 <= e < old(self).levels() && e != x@.len() - 1 && 0 <= k < old(self).count(e)
                    ==> #[trigger] final(self).at(e, k) == old(self).at(e, k),
            keeps_order(*old(self), *final(self)),
    {
        let d = x.len() - 1;
        let ghost pre = *self;
        let ghost n1 = pre.count(d - 1);
        let held = self.simplices[d].len();
        proof {
            assert(held == pre.count(d as int));
            let k0 = choose|k: int| 0 <= k < pre.count(d as int) && #[trigger] pre.at(d as int, k) == x@;
            assert(pre.level_wf(d as int));
            assert(pre.level_wf(d - 1));
            assert forall|q: int| 0 <= q < x@.len() implies pre.holds(d - 1, #[trigger] x@.remove(q)) by {
                assert(pre.holds(d - 1, pre.at(d as int, k0).remove(q)));
            }
        }
        let mut rows: Vec<usize> = Vec::new();
        let mut p: usize = 0;
        while p < x.len()
            invariant
                pre.wf(),
                d == x@.len() - 1,
                1 <= d < pre.levels(),
                n1 == pre.count(d - 1),
                p <= x@.len(),
                rows@.len() == p,
                forall|q: int| 0 <= q < x@.len() ==> pre.holds(d - 1, #[trigger] x@.remove(q)),
                forall|q: int|
                    0 <= q < p ==> (#[trigger] rows@[q]) < n1 && pre.at(d - 1, rows@[q] as int) == x@.remove(q),
                self.simplex_indices@ == pre.simplex_indices@,
                self.boundary_matrices@ == pre.boundary_matrices@,
                self.simplices@.len() == pre.simplices@.len(),
                pre.simplices@.len() == pre.levels(),
                forall|e: int|
                    0 <= e < pre.levels() && e != d - 1 ==> #[trigger] self.simplices@[e] == pre.simplices@[e],
                self.simplices@[d - 1]@.len() == n1,
                pre.simplices@[d - 1]@.len() == n1,
                forall|r: int| 0 <= r < n1 ==> (#[trigger] self.simplices@[d - 1]@[r])@.no_duplicates(),
                forall|r: int, v: usize|
                    0 <= r < n1 ==> (#[trigger] self.simplices@[d - 1]@[r]@.contains(v)
                        <==> pre.simplices@[d - 1]@[r]@.contains(v) && !is_cofacet_before(
                        rows@,
                        x@,
                        p as int,
                        r,
                        v,
                    )),
            decreases x@.len() - p,
        {
            let f = facet(x, p);
            let v = x[p];
            proof {
                assert(pre.level_wf(d - 1));
                pre.lemma_holds_pairs(d - 1, f@);
            }
            match slot_of(&self.simplex_indices[d - 1], &f) {
                None => {
                    assert(false);
                },
                Some(r) => {
                    let ghost before = *self;
                    let ghost old_list = self.simplices@[d - 1]@[r as int]@;
                    match position(&self.simplices[d - 1][r], v) {
                        Some(at) => {
                            self.simplices[d - 1][r].remove(at);
                            proof {
                                lemma_remove_distinct(old_list, at as int);
                            }
                        },
                        None => {},
                    }
                    let ghost rows_before = rows@;
                    rows.push(r);
                    proof {
                        assert(rows@.drop_last() == rows_before);
                        let new_list = self.simplices@[d - 1]@[r as int]@;
                        assert(forall|w: usize| #[trigger]
                            new_list.contains(w) <==> old_list.contains(w) && w != v);
                        assert forall|r2: int| 0 <= r2 < n1 implies (#[trigger] self.simplices@[d
                            - 1]@[r2])@.no_duplicates() by {
                            if r2 != r {
                                assert(self.simplices@[d - 1]@[r2] == before.simplices@[d - 1]@[r2]);
                            }
                        }
                        assert forall|r2: int, w: usize| 0 <= r2 < n1 implies (#[trigger] self.simplices@[d
                            - 1]@[r2]@.contains(w) <==> pre.simplices@[d - 1]@[r2]@.contains(w)
                            && !is_cofacet_before(rows@, x@, p + 1, r2, w)) by {
                            let was = before.simplices@[d - 1]@[r2]@;
                            assert(was.contains(w) <==> pre.simplices@[d - 1]@[r2]@.contains(w)
                                && !is_cofacet_before(rows@.drop_last(), x@, p as int, r2, w));
                            if is_cofacet_before(rows@.drop_last(), x@, p as int, r2, w) {
                                let q = choose|q: int|
                                    0 <= q < p && #[trigger] rows@.drop_last()[q] == r2 && x@[q] == w;
                                assert(rows@[q] == r2 && x@[q] == w);
                            }
                            if r2 == r && w == v {
                                assert(rows@[p as int] == r2 && x@[p as int] == w);
                            }
                            if is_cofacet_before(rows@, x@, p + 1, r2, w) {
                                let q = choose|q: int| 0 <= q < p + 1 && #[trigger] rows@[q] == r2 && x@[q] == w;
                                if q < p {
                                    assert(rows@.drop_last()[q] == r2);
                                }
                            }
                            if r2 != r {
                                assert(self.simplices@[d - 1]@[r2] == before.simplices@[d - 1]@[r2]);
                            }
                        }
                    }
                },
            }
            p += 1;
        }
        proof {
            pre.lemma_holds_pairs(d as int, x@);
            assert(one_slot_each(table_pairs(pre.simplex_indices@[d as int]))) by {
                let t = table_pairs(pre.simplex_indices@[d as int]);
                assert forall|a: usize, b: usize|
                    t.dom().contains(a) && t.dom().contains(b) && a != b implies #[trigger] t[a]
                    != #[trigger] t[b] by {
                    assert(pre.at(d as int, a as int) != pre.at(d as int, b as int));
                }
            }
        }
        let k = match take_simplex(&mut self.simplex_indices[d], x) {
            Some(pair) => pair.0,
            None => {
                assert(false);
                0
            },
        };
        proof {
            let t = table_pairs(pre.simplex_indices@[d as int]);
            let gapped = table_pairs(self.simplex_indices@[d as int]);
            assert(gapped == pairs_without(t, x@));
            assert forall|a: usize, b: usize|
                gapped.dom().contains(a) && gapped.dom().contains(b) && a != b implies #[trigger] gapped[a]
                != #[trigger] gapped[b] by {
                assert(t[a] != t[b]);
            }
        }
        self.update_simplex_indices(d);
        self.simplices[d].remove(k);
        let m = clone_matrix(&self.boundary_matrices[d]);
        let m = remove_row(m, k);
        self.boundary_matrices[d] = m;
        let m = clone_matrix(&self.boundary_matrices[d - 1]);
        let m = remove_column(m, k);
        self.boundary_matrices[d - 1] = m;
        proof {
            pre.lemma_deleted(*self, x@, rows@, k);
        }
    }

    /// What has to hold of the stores after a simplex was taken out, and that
    /// it makes the complex well formed again.
    proof fn lemma_deleted(&self, post: SimplicialComplex, x: Seq<usize>, rows: Seq<usize>, slot: usize)
        requires
            self.wf(),
            x.len() >= 2,
            x.len() <= self.levels(),
            !self.has_cofaces(x),
            slot < self.count(x.len() - 1),
            self.count(x.len() - 1) <= usize::MAX,
            self.at(x.len() - 1, slot as int) == x,
            rows.len() == x.len(),
            forall|q: int|
                0 <= q < x.len() ==> (#[trigger] rows[q]) < self.count(x.len() - 2) && self.at(
                    x.len() - 2,
                    rows[q] as int,
                ) == x.remove(q),
            post.simplex_indices@.len() == self.levels(),
            post.simplices@.len() == self.levels(),
            post.boundary_matrices@.len() == self.levels(),
            forall|e: int|
                0 <= e < self.levels() && e != x.len() - 1 ==> #[trigger] post.simplex_indices@[e]
                    == self.simplex_indices@[e],
            is_compaction(
                pairs_without(table_pairs(self.simplex_indices@[x.len() - 1]), x),
                table_pairs(post.simplex_indices@[x.len() - 1]),
            ),
            forall|e: int|
                0 <= e < self.levels() && e != x.len() - 1 && e != x.len() - 2 ==> #[trigger] post.simplices@[e]
                    == self.simplices@[e],
            post.simplices@[x.len() - 1]@ == self.simplices@[x.len() - 1]@.remove(slot as int),
            post.simplices@[x.len() - 2]@.len() == self.count(x.len() - 2),
            forall|r: int|
                0 <= r < self.count(x.len() - 2) ==> (#[trigger] post.simplices@[x.len() - 2]@[r])@.no_duplicates(),
            forall|r: int, v: usize|
                0 <= r < self.count(x.len() - 2) ==> (#[trigger] post.simplices@[x.len() - 2]@[r]@.contains(v)
                    <==> self.simplices@[x.len() - 2]@[r]@.contains(v) && !is_cofacet_before(
                    rows,
                    x,
                    x.len() as int,
                    r,
                    v,
                )),
            forall|e: int|
                0 <= e < self.levels() && e != x.len() - 1 && e != x.len() - 2 ==> #[trigger] post.boundary_matrices@[e]
                    == self.boundary_matrices@[e],
            post.boundary_matrices@[x.len() - 1].height() == self.count(x.len() - 1) - 1,
            post.boundary_matrices@[x.len() - 1].width() == self.count(x.len() as int),
            forall|i: int, j: int|
                0 <= i < self.count(x.len() - 1) - 1 && 0 <= j < self.count(x.len() as int) ==> #[trigger] post.boundary_matrices@[x.len()
                    - 1].at(i, j) == self.boundary_matrices@[x.len() - 1].at(skip(slot as int, i), j),
            post.boundary_matrices@[x.len() - 2].height() == self.count(x.len() - 2),
            post.boundary_matrices@[x.len() - 2].width() == self.count(x.len() - 1) - 1,
            forall|i: int, j: int|
                0 <= i < self.count(x.len() - 2) && 0 <= j < self.count(x.len() - 1) - 1 ==> #[trigger] post.boundary_matrices@[x.len()
                    - 2].at(i, j) == self.boundary_matrices@[x.len() - 2].at(i, skip(slot as int, j)),
        ensures
            post.wf(),
            post.levels() == self.levels(),
            forall|s: Seq<usize>| #[trigger] post.has(s) <==> self.has(s) && s != x,
            forall|e: int|
                0 <= e < self.levels() ==> #[trigger] post.count(e) == self.count(e) - (if e == x.len() - 1 {
                    1int
                } else {
                    0int
                }),
            forall|e: int, k: int|
                0 <= e < self.levels() && e != x.len() - 1 && 0 <= k < self.count(e) ==> #[trigger] post.at(e, k)
                    == self.at(e, k),
            keeps_order(*self, post),
    {
        let pre = *self;
        let d = x.len() - 1;
        let k = slot as int;
        let n = pre.count(d);
        assert(pre.level_wf(d));
        assert(pre.level_wf(d - 1));
        let t = table_pairs(pre.simplex_indices@[d]);
        let gapped = pairs_without(t, x);
        let after = table_pairs(post.simplex_indices@[d]);
        assert forall|s: usize| #[trigger] gapped.dom().contains(s) <==> s < n && s != k by {
            if s < n && s != k {
                assert(t.dom().contains(s));
                assert(pre.at(d, s as int) != pre.at(d, k));
            }
        }
        assert forall|j: int| 0 <= j < n - 1 implies after.dom().contains(j as usize) && #[trigger] post.at(d, j)
            == pre.at(d, skip(k, j)) by {
            let s = skip(k, j) as usize;
            lemma_one_gap(gapped.dom(), n, k, s as int);
            assert(gapped.dom().contains(s));
            assert(new_slot(gapped, s) == j);
        }
        assert forall|i: usize| #[trigger] after.dom().contains(i) implies i < n - 1 by {
            let s = choose|s: usize| gapped.dom().contains(s) && #[trigger] new_slot(gapped, s) == i;
            lemma_one_gap(gapped.dom(), n, k, s as int);
        }
        assert(post.count(d) == n - 1);
        assert(post.count(d - 1) == pre.count(d - 1));
        assert forall|e: int| 0 <= e < pre.levels() implies #[trigger] post.count(e) == pre.count(e) - (
        if e == d {
            1int
        } else {
            0int
        }) by {
            if e != d && e != d - 1 {
                assert(post.simplices@[e] == pre.simplices@[e]);
            }
        }
        assert forall|e: int, j: int|
            0 <= e < pre.levels() && e != d && 0 <= j < pre.count(e) implies #[trigger] post.at(e, j) == pre.at(
            e,
            j,
        ) by {
            assert(post.simplex_indices@[e] == pre.simplex_indices@[e]);
        }
        assert forall|e: int, f: Seq<usize>| #[trigger] post.holds(e, f) <==> pre.holds(e, f) && !(e == d
            && f == x) by {
            if post.holds(e, f) {
                let j = choose|j: int| 0 <= j < post.count(e) && #[trigger] post.at(e, j) == f;
                if e == d {
                    assert(pre.at(d, skip(k, j)) == f);
                    assert(pre.at(d, skip(k, j)) != pre.at(d, k));
                } else {
                    assert(pre.at(e, j) == f);
                }
            }
            if pre.holds(e, f) && !(e == d && f == x) {
                let j = choose|j: int| 0 <= j < pre.count(e) && #[trigger] pre.at(e, j) == f;
                if e == d {
                    let nj = if j < k {
                        j
                    } else {
                        j - 1
                    };
                    assert(post.at(d, nj) == pre.at(d, skip(k, nj)));
                } else {
                    assert(post.at(e, j) == f);
                }
            }
        }
        assert forall|s: Seq<usize>| #[trigger] post.has(s) <==> pre.has(s) && s != x by {}
        // the rows of the facets of `x`
        assert forall|i: int, v: usize| 0 <= i < pre.count(d - 1) implies (is_cofacet_before(
            rows,
            x,
            x.len() as int,
            i,
            v,
        ) <==> #[trigger] extends(pre.at(d - 1, i), v, x)) by {
            if is_cofacet_before(rows, x, x.len() as int, i, v) {
                let q = choose|q: int| 0 <= q < x.len() && #[trigger] rows[q] == i && x[q] == v;
                assert(is_facet_at(pre.at(d - 1, i), x, q));
            }
            if extends(pre.at(d - 1, i), v, x) {
                let q = choose|q: int| #[trigger] is_facet_at(pre.at(d - 1, i), x, q) && x[q] == v;
                assert(pre.at(d - 1, rows[q] as int) == x.remove(q));
                assert(rows[q] == i);
            }
        }
        assert forall|e: int| 0 <= e < post.levels() implies #[trigger] post.level_wf(e) by {
            assert(pre.level_wf(e));
            if e == d {
                assert(post.table_wf(d)) by {
                    assert forall|kk: usize| #[trigger] after.dom().contains(kk) <==> kk < post.count(d) by {
                        if kk < n - 1 {
                            assert(post.at(d, kk as int) == pre.at(d, skip(k, kk as int)));
                        }
                    }
                    assert forall|j: int| 0 <= j < post.count(d) implies (#[trigger] post.at(d, j)).len()
                        == d + 1 && post.at(d, j).no_duplicates() by {
                        assert(post.at(d, j) == pre.at(d, skip(k, j)));
                    }
                    assert forall|k1: int, k2: int|
                        0 <= k1 < post.count(d) && 0 <= k2 < post.count(d) && k1
                            != k2 implies #[trigger] post.at(d, k1) != #[trigger] post.at(d, k2) by {
                        assert(post.at(d, k1) == pre.at(d, skip(k, k1)));
                        assert(post.at(d, k2) == pre.at(d, skip(k, k2)));
                    }
                }
                assert(post.boundary_wf(d)) by {
                    assert forall|i: int, j: int|
                        0 <= i < post.count(d) && 0 <= j < post.count(d + 1) implies #[trigger] post.boundary_matrices@[d].at(
                        i,
                        j,
                    ) == (if is_facet(post.at(d, i), post.at(d + 1, j)) {
                        1u64
                    } else {
                        0u64
                    }) by {
                        assert(post.at(d + 1, j) == pre.at(d + 1, j));
                        assert(post.at(d, i) == pre.at(d, skip(k, i)));
                        assert(post.boundary_matrices@[d].at(i, j) == pre.boundary_matrices@[d].at(
                            skip(k, i),
                            j,
                        ));
                    }
                }
                assert(post.cofacets_wf(d)) by {
                    assert forall|i: int| 0 <= i < post.count(d) implies (#[trigger] post.simplices@[d]@[i])@.no_duplicates() by {
                        assert(post.simplices@[d]@[i] == pre.simplices@[d]@[skip(k, i)]);
                    }
                    assert forall|i: int, w: usize| 0 <= i < post.count(d) implies (#[trigger] post.simplices@[d]@[i]@.contains(
                        w,
                    ) <==> post.has_coface_with(d, i, w)) by {
                        let oi = skip(k, i);
                        assert(post.simplices@[d]@[i] == pre.simplices@[d]@[oi]);
                        assert(post.at(d, i) == pre.at(d, oi));
                        assert(pre.simplices@[d]@[oi]@.contains(w) <==> pre.has_coface_with(d, oi, w));
                        if pre.has_coface_with(d, oi, w) {
                            let j = choose|j: int|
                                0 <= j < pre.count(d + 1) && extends(pre.at(d, oi), w, #[trigger] pre.at(d + 1, j));
                            assert(post.at(d + 1, j) == pre.at(d + 1, j));
                        }
                        if post.has_coface_with(d, i, w) {
                            let j = choose|j: int|
                                0 <= j < post.count(d + 1) && extends(post.at(d, i), w, #[trigger] post.at(d + 1, j));
                            assert(post.at(d + 1, j) == pre.at(d + 1, j));
                        }
                    }
                }
                assert(post.closed_at(d)) by {
                    assert forall|j: int, p: int| 0 <= j < post.count(d) && 0 <= p <= d implies post.holds(
                        d - 1,
                        #[trigger] post.at(d, j).remove(p),
                    ) by {
                        assert(post.at(d, j) == pre.at(d, skip(k, j)));
                        assert(pre.holds(d - 1, pre.at(d, skip(k, j)).remove(p)));
                    }
                }
            } else if e == d - 1 {
                pre.lemma_table_kept(post, e);
                pre.lemma_closed_kept(post, e);
                assert(post.boundary_wf(e)) by {
                    assert forall|i: int, j: int|
                        0 <= i < post.count(e) && 0 <= j < post.count(e + 1) implies #[trigger] post.boundary_matrices@[e].at(
                        i,
                        j,
                    ) == (if is_facet(post.at(e, i), post.at(e + 1, j)) {
                        1u64
                    } else {
                        0u64
                    }) by {
                        assert(post.at(e, i) == pre.at(e, i));
                        assert(post.at(d, j) == pre.at(d, skip(k, j)));
                        assert(post.boundary_matrices@[e].at(i, j) == pre.boundary_matrices@[e].at(
                            i,
                            skip(k, j),
                        ));
                    }
                }
                assert(post.cofacets_wf(e)) by {
                    assert forall|i: int, w: usize| 0 <= i < post.count(e) implies (#[trigger] post.simplices@[e]@[i]@.contains(
                        w,
                    ) <==> post.has_coface_with(e, i, w)) by {
                        let f = pre.at(e, i);
                        assert(post.at(e, i) == f);
                        assert(pre.simplices@[e]@[i]@.contains(w) <==> pre.has_coface_with(e, i, w));
                        assert(is_cofacet_before(rows, x, x.len() as int, i, w) <==> extends(f, w, x));
                        if post.has_coface_with(e, i, w) {
                            let j = choose|j: int|
                                0 <= j < post.count(e + 1) && extends(post.at(e, i), w, #[trigger] post.at(e + 1, j));
                            let z = post.at(d, j);
                            assert(z == pre.at(d, skip(k, j)));
                            assert(pre.has_coface_with(e, i, w));
                            if extends(f, w, x) {
                                lemma_extends_vertices(f, w, x);
                                lemma_extends_vertices(f, w, z);
                                assert(pre.holds(d, z));
                                assert(pre.holds(d, x));
                                pre.lemma_vertices_fix_simplex(x, z);
                                assert(pre.at(d, skip(k, j)) != pre.at(d, k));
                            }
                        }
                        if pre.has_coface_with(e, i, w) && !extends(f, w, x) {
                            let j = choose|j: int|
                                0 <= j < pre.count(e + 1) && extends(pre.at(e, i), w, #[trigger] pre.at(e + 1, j));
                            assert(j != k);
                            let nj = if j < k {
                                j
                            } else {
                                j - 1
                            };
                            assert(post.at(d, nj) == pre.at(d, skip(k, nj)));
                        }
                    }
                }
            } else if e == d + 1 {
                pre.lemma_stores_kept(post, e);
                assert(post.closed_at(e)) by {
                    assert forall|j: int, p: int| 0 <= j < post.count(e) && 0 <= p <= e implies post.holds(
                        e - 1,
                        #[trigger] post.at(e, j).remove(p),
                    ) by {
                        assert(post.at(e, j) == pre.at(e, j));
                        assert(pre.holds(d, pre.at(e, j).remove(p)));
                        if pre.at(e, j).remove(p) == x {
                            assert(is_facet_at(x, pre.at(e, j), p));
                            assert(is_facet(x, pre.at(x.len() as int, j)));
                        }
                    }
                }
            } else {
                pre.lemma_level_kept(post, e);
            }
        }
        assert(post.oriented()) by {
            assert forall|a: usize, b: usize| !(#[trigger] post.has_edge(a, b) && post.has_edge(b, a)) by {
                assert(!(pre.has_edge(a, b) && pre.has_edge(b, a)));
            }
        }
        assert forall|e: int, k1: int, k2: int| 0 <= k1 < k2 < post.count(e) implies pre.in_order(
            e,
            #[trigger] post.at(e, k1),
            #[trigger] post.at(e, k2),
        ) by {
            if e == d {
                assert(pre.at(d, skip(k, k1)) == post.at(d, k1));
                assert(pre.at(d, skip(k, k2)) == post.at(d, k2));
            } else {
                assert(pre.at(e, k1) == post.at(e, k1));
                assert(pre.at(e, k2) == post.at(e, k2));
            }
        }
    }

    /// The first column of row `k` of the boundary matrix of dimension `d`
    /// that holds a 1: the slot of a simplex that has the simplex in slot `k`
    /// as a facet.
    pub fn first_coface(&self, d: usize, k: usize) -> (found: Option<usize>)
        requires
            self.wf(),
            d < self.levels(),
            k < self.count(d as int),
        ensures
            match found {
                Some(j) => j < self.count(d + 1) && is_facet(self.at(d as int, k as int), self.at(d + 1, j as int))
                    && forall|c: int|
                    0 <= c < j ==> !is_facet(self.at(d as int, k as int), #[trigger] self.at(d + 1, c)),
                None => !self.has_cofaces(self.at(d as int, k as int)),
            },
    {
        proof {
            assert(self.level_wf(d as int));
        }
        let width = ncols(&self.boundary_matrices[d]);
        let mut j: usize = 0;
        while j < width
            invariant
                self.wf(),
                d < self.levels(),
                k < self.count(d as int),
                width == self.count(d + 1),
                self.level_wf(d as int),
                j <= width,
                forall|c: int| 0 <= c < j ==> !is_facet(self.at(d as int, k as int), #[trigger] self.at(d + 1, c)),
            decreases width - j,
        {
            let bit = entry(&self.boundary_matrices[d], k, j);
            proof {
                assert(bit == self.boundary_matrices@[d as int].at(k as int, j as int));
            }
            if bit == 1 {
                return Some(j);
            }
            j += 1;
        }
        proof {
            assert(self.at(d as int, k as int).len() == d + 1);
        }
        None
    }

    /// The simplex in slot `j` of dimension `d + 1`, put together from three of
    /// its facets: the simplices of the first three rows of column `j` of the
    /// boundary matrix of dimension `d` that hold a 1.
    pub fn coface_in_column(&self, d: usize, j: usize) -> (coface: Vec<usize>)
        requires
            self.wf(),
            1 <= d,
            d + 1 < self.levels(),
            j < self.count(d + 1),
        ensures
            coface@ == self.at(d + 1, j as int),
    {
        proof {
            assert(self.level_wf(d as int));
            assert(self.level_wf(d + 1));
        }
        let height = nrows(&self.boundary_matrices[d]);
        let ghost t = self.at(d + 1, j as int);
        let mut facets: Vec<Vec<usize>> = Vec::new();
        let ghost mut rows: Seq<int> = Seq::empty();
        let mut i: usize = 0;
        while i < height && facets.len() < 3
            invariant
                self.wf(),
                1 <= d,
                d + 1 < self.levels(),
                j < self.count(d + 1),
                t == self.at(d + 1, j as int),
                height == self.count(d as int),
                i <= height,
                facets@.len() <= 3,
                rows.len() == facets@.len(),
                forall|k: int|
                    0 <= k < rows.len() ==> 0 <= #[trigger] rows[k] < i && facets@[k]@ == self.at(
                        d as int,
                        rows[k],
                    ) && is_facet(facets@[k]@, t),
                forall|k1: int, k2: int| 0 <= k1 < k2 < rows.len() ==> rows[k1] < rows[k2],
                facets@.len() < 3 ==> forall|r: int|
                    0 <= r < i && is_facet(#[trigger] self.at(d as int, r), t) ==> rows.contains(r),
            decreases height - i,
        {
            proof {
                assert(self.level_wf(d as int));
                assert(table_pairs(self.simplex_indices@[d as int]).dom().contains(i));
            }
            let bit = entry(&self.boundary_matrices[d], i, j);
            proof {
                assert(bit == self.boundary_matrices@[d as int].at(i as int, j as int));
            }
            let ghost rows_before = rows;
            if bit == 1 {
                match simplex_in(&self.simplex_indices[d], i) {
                    None => {
                        assert(false);
                    },
                    Some(f) => {
                        facets.push(f);
                        proof {
                            rows = rows.push(i as int);
                        }
                    },
                }
            }
            proof {
                if facets@.len() < 3 {
                    assert forall|r: int| 0 <= r < i + 1 && is_facet(#[trigger] self.at(d as int, r), t) implies rows.contains(
                        r,
                    ) by {
                        if r < i {
                            assert(rows_before.contains(r));
                            let k = choose|k: int| 0 <= k < rows_before.len() && rows_before[k] == r;
                            assert(rows[k] == r);
                        } else {
                            assert(rows[rows.len() - 1] == r);
                        }
                    }
                }
            }
            i += 1;
        }
        proof {
            assert(t.len() == d + 2);
            assert(t.no_duplicates());
            if facets@.len() < 3 {
                let f0 = t.remove(0);
                let f1 = t.remove(1);
                let f2 = t.remove(2);
                assert(self.holds(d as int, self.at(d + 1, j as int).remove(0)));
                assert(self.holds(d as int, self.at(d + 1, j as int).remove(1)));
                assert(self.holds(d as int, self.at(d + 1, j as int).remove(2)));
                let r0 = choose|r: int| 0 <= r < self.count(d as int) && #[trigger] self.at(d as int, r) == f0;
                let r1 = choose|r: int| 0 <= r < self.count(d as int) && #[trigger] self.at(d as int, r) == f1;
                let r2 = choose|r: int| 0 <= r < self.count(d as int) && #[trigger] self.at(d as int, r) == f2;
                assert(is_facet_at(f0, t, 0) && is_facet_at(f1, t, 1) && is_facet_at(f2, t, 2));
                assert(f0[0] == t[1] && f1[0] == t[0] && f2[0] == t[0]);
                assert(f1[1] == t[2] && f2[1] == t[1]);
                assert(rows.contains(r0) && rows.contains(r1) && rows.contains(r2));
                let k0 = choose|k: int| 0 <= k < rows.len() && rows[k] == r0;
                let k1 = choose|k: int| 0 <= k < rows.len() && rows[k] == r1;
                let k2 = choose|k: int| 0 <= k < rows.len() && rows[k] == r2;
                assert(false);
            }
            let subs = views(facets@);
            assert forall|k: int| 0 <= k < subs.len() implies is_facet(#[trigger] subs[k], t) by {
                assert(0 <= rows[k] < i);
                assert(is_facet(facets@[k]@, t));
            }
            assert(subs[0] != subs[1] && subs[0] != subs[2] && subs[1] != subs[2]) by {
                assert(rows[0] < rows[1] && rows[1] < rows[2]);
                assert(self.at(d as int, rows[0]) != self.at(d as int, rows[1]));
                assert(self.at(d as int, rows[0]) != self.at(d as int, rows[2]));
                assert(self.at(d as int, rows[1]) != self.at(d as int, rows[2]));
            }
            lemma_facets_fix_simplex(t, subs);
            assert(are_faces_of(subs, t)) by {
                assert forall|k: int| 0 <= k < subs.len() implies is_face(#[trigger] subs[k], t) by {
                    lemma_facet_is_face(subs[k], t);
                }
            }
            assert forall|k: int| 0 <= k < facets@.len() implies (#[trigger] facets@[k])@.no_duplicates() by {
                assert(facets@[k]@ == self.at(d as int, rows[k]));
            }
        }
        let coface = combine_simplices(&facets);
        proof {
            assert(is_combination(views(facets@), coface@));
        }
        coface
    }

    /// Removes the simplex `simplex`, of dimension 1 or more, and with it every
    /// simplex of the complex that has it as a face.
    ///
    /// The simplices that have `simplex` as a facet go first, each with all
    /// that depends on it; then `simplex` itself leaves its slot, and the
    /// slots behind it move up. Nothing of a lower dimension changes.
    pub fn remove(&mut self, simplex: Vec<usize>)
        requires
            old(self).wf(),
            simplex@.len() >= 2,
            old(self).has(simplex@),
        ensures
            final(self).wf(),
            final(self).levels() == old(self).levels(),
            forall|s: Seq<usize>| #[trigger] final(self).has(s) <==> old(self).has(s) && !is_face(simplex@, s),
            forall|e: int|
                0 <= e < simplex@.len() - 1 ==> #[trigger] final(self).count(e) == old(self).count(e),
            final(self).count(simplex@.len() - 1) == old(self).count(simplex@.len() - 1) - 1,
            forall|e: int, k: int|
                0 <= e < simplex@.len() - 1 && 0 <= k < old(self).count(e) ==> #[trigger] final(self).at(e, k)
                    == old(self).at(e, k),
            is_removal(*old(self), *final(self), simplex@),
            has_simplex_less(*old(self), *final(self), simplex@),
            keeps_order(*old(self), *final(self)),
            simplex@.len() == 2 && old(self).is_flag() ==> final(self).is_flag(),
        decreases old(self).levels() - simplex@.len(),
    {
        let d = simplex.len() - 1;
        let ghost start = *self;
        let ghost x = simplex@;
        proof {
            let k0 = choose|k: int| 0 <= k < start.count(d as int) && #[trigger] start.at(d as int, k) == x;
            assert(start.level_wf(d as int));
            start.lemma_holds_pairs(d as int, x);
        }
        let k = match slot_of(&self.simplex_indices[d], &simplex) {
            Some(k) => k,
            None => {
                assert(false);
                0
            },
        };
        let up = simplex.len();
        proof {
            assert forall|e: int, k1: int, k2: int| 0 <= k1 < k2 < start.count(e) implies start.in_order(
                e,
                #[trigger] start.at(e, k1),
                #[trigger] start.at(e, k2),
            ) by {}
        }
        if up < self.simplex_indices.len() {
            loop
                invariant
                    self.wf(),
                    start.wf(),
                    up == d + 1,
                    start.levels() == old(self).levels(),
                    x == simplex@,
                    x.len() == d + 1,
                    d >= 1,
                    d + 1 < self.levels(),
                    self.levels() == start.levels(),
                    k < self.count(d as int),
                    self.at(d as int, k as int) == x,
                    forall|e: int| 0 <= e <= d ==> #[trigger] self.count(e) == start.count(e),
                    forall|e: int, j: int|
                        0 <= e <= d && 0 <= j < start.count(e) ==> #[trigger] self.at(e, j) == start.at(e, j),
                    forall|s: Seq<usize>| #[trigger] self.has(s) ==> start.has(s),
                    forall|s: Seq<usize>| start.has(s) && !is_face(x, s) ==> #[trigger] self.has(s),
                    keeps_order(start, *self),
                ensures
                    self.wf(),
                    self.levels() == start.levels(),
                    k < self.count(d as int),
                    self.at(d as int, k as int) == x,
                    !self.has_cofaces(x),
                    forall|e: int| 0 <= e <= d ==> #[trigger] self.count(e) == start.count(e),
                    forall|e: int, j: int|
                        0 <= e <= d && 0 <= j < start.count(e) ==> #[trigger] self.at(e, j) == start.at(e, j),
                    forall|s: Seq<usize>| #[trigger] self.has(s) ==> start.has(s),
                    forall|s: Seq<usize>| start.has(s) && !is_face(x, s) ==> #[trigger] self.has(s),
                    keeps_order(start, *self),
                decreases self.count(d + 1),
            {
                match self.first_coface(d, k) {
                    None => {
                        break ;
                    },
                    Some(j) => {
                        proof {
                            assert(self.level_wf(d + 1));
                            assert(table_pairs(self.simplex_indices@[d + 1]).dom().contains(j));
                        }
                        let coface = self.coface_in_column(d, j);
                        let ghost before = *self;
                        let ghost t = coface@;
                        proof {
                            assert(t == self.at(d + 1, j as int));
                            assert(self.holds(d + 1, t));
                            assert(t.len() == d + 2);
                        }
                        self.remove(coface);
                        proof {
                            lemma_keeps_order(start, before, *self);
                            assert forall|s: Seq<usize>| start.has(s) && !is_face(x, s) implies #[trigger] self.has(
                                s,
                            ) by {
                                assert(before.has(s));
                                if is_face(t, s) {
                                    lemma_face_of_face(x, t, s);
                                }
                            }
                        }
                    },
                }
            }
        } else {
            proof {
                assert(!self.has_cofaces(x));
            }
        }
        let ghost cleared = *self;
        self.delete_simplex(&simplex);
        proof {
            lemma_keeps_order(start, cleared, *self);
            assert forall|s: Seq<usize>| #[trigger] self.has(s) <==> start.has(s) && !is_face(x, s) by {
                if self.has(s) {
                    assert(cleared.has(s) && s != x);
                    if is_face(x, s) {
                        cleared.lemma_face_has_coface(x, s);
                    }
                }
                if start.has(s) && !is_face(x, s) {
                    assert(cleared.has(s));
                    assert(is_face(x, x));
                }
            }
            if x.len() == 2 && start.is_flag() {
                assert(x =~= edge(x[0], x[1]));
                start.lemma_flag_without_edge(*self, x[0], x[1]);
            }
            lemma_removal_edges(start, *self, x);
        }
    }
}

} // verus!
