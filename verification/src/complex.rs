//! The simplicial complex: per dimension a slot table, a cofacet table and a
//! boundary matrix, kept in step while edges come and go.

use crate::matrix::{ncols, nrows, resize_columns, resize_rows, set_entry, zeros, BoundaryMatrix};
use crate::simplex::{
    common_vertices, copy_of, edge, extends, facet, is_facet, is_facet_at, places, point, position,
};
use crate::slots::{holds_simplex, new_table, pairs_hold, pairs_with, put, slot_of, table_pairs};
use bimap::BiHashMap;
use vstd::prelude::*;

verus! {

/// The directed clique complex of a directed graph, with its bookkeeping.
///
/// Position `d` of each of the three lists belongs to the simplices of
/// dimension `d`, those with `d + 1` vertices:
/// - `simplex_indices[d]` numbers them: slot `k` holds one simplex, and the
///   slots in use are `0, 1, ..` without a gap;
/// - `simplices[d][k]` lists the cofacet vertices of the simplex in slot `k`:
///   the vertices that, put into it at some position, give a simplex of the
///   complex;
/// - `boundary_matrices[d]` has a row for each slot of dimension `d` and a
///   column for each slot of dimension `d + 1`, with a 1 where the row's
///   simplex is a facet of the column's simplex and a 0 elsewhere.
pub struct SimplicialComplex {
    pub simplices: Vec<Vec<Vec<usize>>>,
    pub simplex_indices: Vec<BiHashMap<usize, Vec<usize>>>,
    pub boundary_matrices: Vec<BoundaryMatrix>,
}

/// Some position before `p` of `rows` holds `i`.
pub open spec fn is_row_before(rows: Seq<usize>, p: int, i: int) -> bool {
    exists|q: int| 0 <= q < p && #[trigger] rows[q] == i
}

/// Some position `q` before `p` has `rows[q] == r` and `x[q] == v`.
pub open spec fn is_cofacet_before(rows: Seq<usize>, x: Seq<usize>, p: int, r: int, v: usize) -> bool {
    exists|q: int| 0 <= q < p && #[trigger] rows[q] == r && x[q] == v
}

/// A sequence without repeats that places `u` before `v` still does both once
/// a vertex that it lacks is put in.
pub proof fn lemma_insert_keeps(y: Seq<usize>, q: int, w: usize, u: usize, v: usize)
    requires
        0 <= q <= y.len(),
        y.no_duplicates(),
        !y.contains(w),
    ensures
        y.insert(q, w).no_duplicates(),
        y.insert(q, w).len() == y.len() + 1,
        y.insert(q, w).remove(q) == y,
        places(y, u, v) ==> places(y.insert(q, w), u, v),
{
    let t = y.insert(q, w);
    y.insert_ensures(q, w);
    assert forall|i: int, j: int| 0 <= i < t.len() && 0 <= j < t.len() && i != j implies t[i] != t[j] by {
        let oi = if i < q {
            i
        } else {
            i - 1
        };
        let oj = if j < q {
            j
        } else {
            j - 1
        };
        if i != q {
            assert(t[i] == y[oi]);
            assert(y.contains(y[oi]));
        }
        if j != q {
            assert(t[j] == y[oj]);
            assert(y.contains(y[oj]));
        }
    }
    assert(t.remove(q) =~= y);
    if places(y, u, v) {
        let (i, j) = choose|i: int, j: int| 0 <= i < j < y.len() && #[trigger] y[i] == u && #[trigger] y[j] == v;
        let ni = if i < q {
            i
        } else {
            i + 1
        };
        let nj = if j < q {
            j
        } else {
            j + 1
        };
        assert(t[ni] == u && t[nj] == v);
    }
}

impl SimplicialComplex {
    /// The number of dimensions for which the complex keeps stores.
    pub open spec fn levels(&self) -> int {
        self.simplex_indices@.len() as int
    }

    /// The number of simplices of dimension `d`.
    pub open spec fn count(&self, d: int) -> int {
        if 0 <= d < self.levels() {
            self.simplices@[d]@.len() as int
        } else {
            0
        }
    }

    /// The simplex of dimension `d` in slot `k`.
    pub open spec fn at(&self, d: int, k: int) -> Seq<usize> {
        table_pairs(self.simplex_indices@[d])[k as usize]
    }

    /// The complex holds `s` as a simplex of dimension `d`.
    pub open spec fn holds(&self, d: int, s: Seq<usize>) -> bool {
        exists|k: int| 0 <= k < self.count(d) && #[trigger] self.at(d, k) == s
    }

    /// The complex holds the simplex `s`.
    pub open spec fn has(&self, s: Seq<usize>) -> bool {
        self.holds(s.len() - 1, s)
    }

    /// The complex holds the vertex `v`.
    pub open spec fn has_vertex(&self, v: usize) -> bool {
        self.holds(0, point(v))
    }

    /// The complex holds the edge from `a` to `b`.
    pub open spec fn has_edge(&self, a: usize, b: usize) -> bool {
        self.holds(1, edge(a, b))
    }

    /// The complex holds a simplex that is the one in slot `k` of dimension
    /// `d` with the vertex `v` put in.
    pub open spec fn has_coface_with(&self, d: int, k: int, v: usize) -> bool {
        exists|j: int| 0 <= j < self.count(d + 1) && extends(self.at(d, k), v, #[trigger] self.at(d + 1, j))
    }

    /// The slots of dimension `d` in use are `0 .. count(d)`, each holds a
    /// sequence of `d + 1` distinct vertices, and no two hold the same.
    pub open spec fn table_wf(&self, d: int) -> bool {
        &&& forall|k: usize| #[trigger]
            table_pairs(self.simplex_indices@[d]).dom().contains(k) <==> k < self.count(d)
        &&& forall|k: int|
            0 <= k < self.count(d) ==> (#[trigger] self.at(d, k)).len() == d + 1 && self.at(
                d,
                k,
            ).no_duplicates()
        &&& forall|k1: int, k2: int|
            0 <= k1 < self.count(d) && 0 <= k2 < self.count(d) && k1 != k2 ==> #[trigger] self.at(d, k1)
                != #[trigger] self.at(d, k2)
    }

    /// The boundary matrix of dimension `d` has a row per simplex of dimension
    /// `d`, a column per simplex of dimension `d + 1`, and a 1 exactly where
    /// the row's simplex is a facet of the column's.
    pub open spec fn boundary_wf(&self, d: int) -> bool {
        &&& self.boundary_matrices@[d].height() == self.count(d)
        &&& self.boundary_matrices@[d].width() == self.count(d + 1)
        &&& forall|i: int, j: int|
            0 <= i < self.count(d) && 0 <= j < self.count(d + 1) ==> #[trigger] self.boundary_matrices@[d].at(
                i,
                j,
            ) == (if is_facet(self.at(d, i), self.at(d + 1, j)) {
                1u64
            } else {
                0u64
            })
    }

    /// The cofacet list of each simplex of dimension `d` names, each once,
    /// exactly the vertices that extend it to a simplex of the complex.
    pub open spec fn cofacets_wf(&self, d: int) -> bool {
        &&& forall|k: int|
            0 <= k < self.count(d) ==> (#[trigger] self.simplices@[d]@[k])@.no_duplicates()
        &&& forall|k: int, v: usize|
            0 <= k < self.count(d) ==> (#[trigger] self.simplices@[d]@[k]@.contains(v)
                <==> self.has_coface_with(d, k, v))
    }

    /// Every facet of a simplex of dimension `d` is in the complex.
    pub open spec fn closed_at(&self, d: int) -> bool {
        d >= 1 ==> forall|k: int, p: int|
            0 <= k < self.count(d) && 0 <= p <= d ==> self.holds(d - 1, #[trigger] self.at(d, k).remove(p))
    }

    /// The stores of dimension `d` are in step with each other and with those
    /// of the dimensions next to it.
    pub open spec fn level_wf(&self, d: int) -> bool {
        &&& self.table_wf(d)
        &&& self.boundary_wf(d)
        &&& self.cofacets_wf(d)
        &&& self.closed_at(d)
    }

    /// No two vertices are joined by an edge in both directions.
    pub open spec fn oriented(&self) -> bool {
        forall|a: usize, b: usize| !(#[trigger] self.has_edge(a, b) && self.has_edge(b, a))
    }

    /// The complex is well formed: it is a simplicial complex (with each
    /// simplex it holds that simplex's facets), its three stores agree, and
    /// its edges are oriented.
    pub open spec fn wf(&self) -> bool {
        &&& self.levels() >= 1
        &&& self.simplices@.len() == self.levels()
        &&& self.boundary_matrices@.len() == self.levels()
        &&& forall|d: int| 0 <= d < self.levels() ==> #[trigger] self.level_wf(d)
        &&& self.oriented()
    }

    /// Adds a row of zeros to the boundary matrix of dimension `mat_index`.
    /// Nothing else changes.
    pub fn add_row(&mut self, mat_index: usize)
        requires
            mat_index < old(self).boundary_matrices@.len(),
            old(self).boundary_matrices@[mat_index as int].height() < usize::MAX,
        ensures
            final(self).simplices == old(self).simplices,
            final(self).simplex_indices == old(self).simplex_indices,
            final(self).boundary_matrices@.len() == old(self).boundary_matrices@.len(),
            forall|e: int|
                0 <= e < old(self).boundary_matrices@.len() && e != mat_index ==> #[trigger] final(self).boundary_matrices@[e]
                    == old(self).boundary_matrices@[e],
            final(self).boundary_matrices@[mat_index as int].height() == old(self).boundary_matrices@[mat_index as int].height()
                + 1,
            final(self).boundary_matrices@[mat_index as int].width() == old(self).boundary_matrices@[mat_index as int].width(),
            forall|i: int, j: int|
                0 <= i <= old(self).boundary_matrices@[mat_index as int].height() && 0 <= j < old(
                    self,
                ).boundary_matrices@[mat_index as int].width() ==> #[trigger] final(self).boundary_matrices@[mat_index as int].at(
                    i,
                    j,
                ) == (if i < old(self).boundary_matrices@[mat_index as int].height() {
                    old(self).boundary_matrices@[mat_index as int].at(i, j)
                } else {
                    0u64
                }),
    {
        let n_rows = nrows(&self.boundary_matrices[mat_index]) + 1;
        resize_rows(&mut self.boundary_matrices[mat_index], n_rows, 0);
    }

    /// Adds a column to the boundary matrix of dimension `mat_index`: it
    /// holds a 1 in the rows that `indices` names and a 0 in the others.
    /// Nothing else changes.
    pub fn add_column(&mut self, mat_index: usize, indices: &Vec<usize>)
        requires
            mat_index < old(self).boundary_matrices@.len(),
            old(self).boundary_matrices@[mat_index as int].width() < usize::MAX,
            forall|q: int|
                0 <= q < indices@.len() ==> (#[trigger] indices@[q]) < old(self).boundary_matrices@[mat_index as int].height(),
        ensures
            final(self).simplices == old(self).simplices,
            final(self).simplex_indices == old(self).simplex_indices,
            final(self).boundary_matrices@.len() == old(self).boundary_matrices@.len(),
            forall|e: int|
                0 <= e < old(self).boundary_matrices@.len() && e != mat_index ==> #[trigger] final(self).boundary_matrices@[e]
                    == old(self).boundary_matrices@[e],
            final(self).boundary_matrices@[mat_index as int].height() == old(self).boundary_matrices@[mat_index as int].height(),
            final(self).boundary_matrices@[mat_index as int].width() == old(self).boundary_matrices@[mat_index as int].width()
                + 1,
            forall|i: int, j: int|
                0 <= i < old(self).boundary_matrices@[mat_index as int].height() && 0 <= j < old(
                    self,
                ).boundary_matrices@[mat_index as int].width() ==> #[trigger] final(self).boundary_matrices@[mat_index as int].at(
                    i,
                    j,
                ) == old(self).boundary_matrices@[mat_index as int].at(i, j),
            forall|i: int|
                0 <= i < old(self).boundary_matrices@[mat_index as int].height() ==> #[trigger] final(self).boundary_matrices@[mat_index as int].at(
                    i,
                    old(self).boundary_matrices@[mat_index as int].width() as int,
                ) == (if is_row_before(indices@, indices@.len() as int, i) {
                    1u64
                } else {
                    0u64
                }),
    {
        let ghost pre = *self;
        let ghost h = self.boundary_matrices@[mat_index as int].height();
        let last = ncols(&self.boundary_matrices[mat_index]);
        let n_cols = last + 1;
        resize_columns(&mut self.boundary_matrices[mat_index], n_cols, 0);
        let mut q: usize = 0;
        while q < indices.len()
            invariant
                q <= indices@.len(),
                mat_index < pre.boundary_matrices@.len(),
                h == pre.boundary_matrices@[mat_index as int].height(),
                last == pre.boundary_matrices@[mat_index as int].width(),
                forall|r: int| 0 <= r < indices@.len() ==> (#[trigger] indices@[r]) < h,
                self.simplices == pre.simplices,
                self.simplex_indices == pre.simplex_indices,
                self.boundary_matrices@.len() == pre.boundary_matrices@.len(),
                forall|e: int|
                    0 <= e < pre.boundary_matrices@.len() && e != mat_index ==> #[trigger] self.boundary_matrices@[e]
                        == pre.boundary_matrices@[e],
                self.boundary_matrices@[mat_index as int].height() == h,
                self.boundary_matrices@[mat_index as int].width() == last + 1,
                forall|i: int, j: int|
                    0 <= i < h && 0 <= j < last ==> #[trigger] self.boundary_matrices@[mat_index as int].at(i, j)
                        == pre.boundary_matrices@[mat_index as int].at(i, j),
                forall|i: int|
                    0 <= i < h ==> #[trigger] self.boundary_matrices@[mat_index as int].at(i, last as int) == (
                    if is_row_before(indices@, q as int, i) {
                        1u64
                    } else {
                        0u64
                    }),
            decreases indices@.len() - q,
        {
            let index = indices[q];
            set_entry(&mut self.boundary_matrices[mat_index], index, last, 1);
            proof {
                assert forall|i: int| 0 <= i < h implies #[trigger] self.boundary_matrices@[mat_index as int].at(
                    i,
                    last as int,
                ) == (if is_row_before(indices@, q + 1, i) {
                    1u64
                } else {
                    0u64
                }) by {
                    if is_row_before(indices@, q as int, i) {
                        let r = choose|r: int| 0 <= r < q && #[trigger] indices@[r] == i;
                        assert(indices@[r] == i);
                    }
                    if i == index {
                        assert(indices@[q as int] == i);
                    }
                    if is_row_before(indices@, q + 1, i) {
                        let r = choose|r: int| 0 <= r < q + 1 && #[trigger] indices@[r] == i;
                        if r < q {
                            assert(is_row_before(indices@, q as int, i));
                        }
                    }
                }
            }
            q += 1;
        }
    }

    /// A complex with the given vertices and nothing else.
    pub fn new(vertices: Vec<usize>) -> (complex: SimplicialComplex)
        ensures
            complex.wf(),
            complex.levels() == 1,
            forall|v: usize| #[trigger] complex.has_vertex(v) <==> vertices@.contains(v),
            forall|s: Seq<usize>| s.len() != 1 ==> !#[trigger] complex.has(s),
            complex.is_flag(),
    {
        let mut simplices: Vec<Vec<Vec<usize>>> = Vec::new();
        simplices.push(Vec::new());
        let mut simplex_indices: Vec<BiHashMap<usize, Vec<usize>>> = Vec::new();
        simplex_indices.push(new_table());
        let mut boundary_matrices: Vec<BoundaryMatrix> = Vec::new();
        boundary_matrices.push(zeros(0, 0));
        let mut complex = SimplicialComplex { simplices, simplex_indices, boundary_matrices };
        assert(complex.level_wf(0));
        assert(complex.wf());
        let mut i: usize = 0;
        while i < vertices.len()
            invariant
                i <= vertices@.len(),
                complex.wf(),
                complex.levels() == 1,
                forall|v: usize| #[trigger]
                    complex.has_vertex(v) <==> vertices@.subrange(0, i as int).contains(v),
            decreases vertices@.len() - i,
        {
            let ghost seen = vertices@.subrange(0, i as int);
            let ghost seen_next = vertices@.subrange(0, i + 1);
            assert(seen_next == seen.push(vertices@[i as int]));
            let ghost before = complex;
            complex.add_vertex(vertices[i]);
            assert forall|v: usize| #[trigger]
                complex.has_vertex(v) <==> seen_next.contains(v) by {
                assert(complex.has(point(v)) <==> before.has(point(v)) || point(v) == point(vertices@[i as int]));
                assert(before.has_vertex(v) <==> seen.contains(v));
                if seen.contains(v) {
                    let q = choose|q: int| 0 <= q < seen.len() && seen[q] == v;
                    assert(seen_next[q] == v);
                }
                if v == vertices@[i as int] {
                    assert(seen_next[i as int] == v);
                }
                if seen_next.contains(v) {
                    let q = choose|q: int| 0 <= q < seen_next.len() && seen_next[q] == v;
                    if q < i {
                        assert(seen[q] == v);
                    }
                }
                if point(v) == point(vertices@[i as int]) {
                    assert(point(v)[0] == point(vertices@[i as int])[0]);
                }
            }
            i += 1;
        }
        assert(vertices@.subrange(0, i as int) == vertices@);
        proof {
            assert forall|t: Seq<usize>| t.len() >= 3 && #[trigger] complex.facets_held(t) implies complex.has(
                t,
            ) by {
                assert(complex.has(t.remove(0)));
            }
        }
        complex
    }

    /// Makes `v` a vertex of the complex, if it is none yet.
    pub fn add_vertex(&mut self, v: usize)
        requires
            old(self).wf(),
        ensures
            final(self).wf(),
            final(self).levels() == old(self).levels(),
            forall|s: Seq<usize>| #[trigger] final(self).has(s) <==> old(self).has(s) || s == point(v),
            forall|e: int|
                1 <= e < old(self).levels() ==> #[trigger] final(self).count(e) == old(self).count(e),
            final(self).count(0) == old(self).count(0) + (if old(self).has_vertex(v) {
                0int
            } else {
                1int
            }),
            forall|e: int, k: int|
                0 <= e < old(self).levels() && 0 <= k < old(self).count(e) ==> #[trigger] final(self).at(e, k)
                    == old(self).at(e, k),
            old(self).is_flag() ==> final(self).is_flag(),
    {
        let mut s: Vec<usize> = Vec::new();
        s.push(v);
        assert(s@ == point(v));
        if holds_simplex(&self.simplex_indices[0], &s) {
            proof {
                let k = choose|k: usize| #[trigger]
                    table_pairs(self.simplex_indices@[0]).dom().contains(k) && table_pairs(
                        self.simplex_indices@[0],
                    )[k] == s@;
                assert(self.level_wf(0));
                assert(self.at(0, k as int) == s@);
                assert(self.has(s@));
            }
            return ;
        }
        let ghost pre = *self;
        proof {
            assert(pre.level_wf(0));
            if pre.has(s@) {
                let k = choose|k: int| 0 <= k < pre.count(0) && #[trigger] pre.at(0, k) == s@;
                assert(table_pairs(pre.simplex_indices@[0]).dom().contains(k as usize));
                assert(pairs_hold(table_pairs(pre.simplex_indices@[0]), s@));
            }
        }
        let k = self.simplices[0].len();
        put(&mut self.simplex_indices[0], k, s);
        self.simplices[0].push(Vec::new());
        let held = self.simplices[0].len();
        proof {
            assert(held == k + 1);
            assert(pre.level_wf(0));
            assert(self.boundary_matrices@[0].height() == k);
        }
        self.add_row(0);
        proof {
            let post = *self;
            assert(post.levels() == pre.levels());
            assert(post.count(0) == k + 1);
            assert forall|e: int, j: int|
                0 <= e < pre.levels() && 0 <= j < pre.count(e) implies #[trigger] post.at(e, j) == pre.at(
                e,
                j,
            ) by {
                if e == 0 {
                    assert(pre.level_wf(0));
                    assert(table_pairs(pre.simplex_indices@[0]).dom().contains(j as usize));
                    if pre.at(0, j) == point(v) {
                        assert(pre.holds(0, point(v)));
                    }
                }
            }
            assert(post.at(0, k as int) == point(v));
            assert forall|e: int| 0 <= e < pre.levels() implies #[trigger] post.count(e) == pre.count(e) + (
            if e == 0 {
                1int
            } else {
                0int
            }) by {}
            assert forall|e: int, f: Seq<usize>| pre.holds(e, f) implies #[trigger] post.holds(e, f) by {
                let j = choose|j: int| 0 <= j < pre.count(e) && #[trigger] pre.at(e, j) == f;
                assert(post.at(e, j) == f);
            }
            assert forall|e: int, f: Seq<usize>| #[trigger] post.holds(e, f) implies pre.holds(e, f) || (e
                == 0 && f == point(v)) by {
                let j = choose|j: int| 0 <= j < post.count(e) && #[trigger] post.at(e, j) == f;
                if e == 0 && j == k {
                } else {
                    assert(pre.at(e, j) == f);
                }
            }
            assert(post.holds(0, point(v)));
            assert forall|d: int| 0 <= d < post.levels() implies #[trigger] post.level_wf(d) by {
                assert(pre.level_wf(d));
                if d == 0 {
                    assert(post.table_wf(0)) by {
                        assert forall|kk: usize| #[trigger]
                            table_pairs(post.simplex_indices@[0]).dom().contains(kk) <==> kk < post.count(
                                0,
                            ) by {
                            if kk < k {
                                assert(table_pairs(pre.simplex_indices@[0]).dom().contains(kk));
                                if pre.at(0, kk as int) == point(v) {
                                    assert(pre.holds(0, point(v)));
                                }
                            } else if kk > k {
                                assert(!table_pairs(pre.simplex_indices@[0]).dom().contains(kk));
                            }
                        }
                        assert forall|j: int| 0 <= j < post.count(0) implies (#[trigger] post.at(
                            0,
                            j,
                        )).len() == 1 && post.at(0, j).no_duplicates() by {
                            if j < k {
                                assert(post.at(0, j) == pre.at(0, j));
                            }
                        }
                        assert forall|k1: int, k2: int|
                            0 <= k1 < post.count(0) && 0 <= k2 < post.count(0) && k1
                                != k2 implies #[trigger] post.at(0, k1) != #[trigger] post.at(0, k2) by {
                            if k1 < k {
                                assert(post.at(0, k1) == pre.at(0, k1));
                                assert(pre.holds(0, pre.at(0, k1)));
                            }
                            if k2 < k {
                                assert(post.at(0, k2) == pre.at(0, k2));
                                assert(pre.holds(0, pre.at(0, k2)));
                            }
                        }
                    }
                    assert(post.boundary_wf(0)) by {
                        assert forall|i: int, j: int|
                            0 <= i < post.count(0) && 0 <= j < post.count(1) implies #[trigger] post.boundary_matrices@[0].at(
                            i,
                            j,
                        ) == (if is_facet(post.at(0, i), post.at(1, j)) {
                            1u64
                        } else {
                            0u64
                        }) by {
                            assert(post.at(1, j) == pre.at(1, j));
                            if i < k {
                                assert(post.at(0, i) == pre.at(0, i));
                                assert(post.boundary_matrices@[0].at(i, j) == pre.boundary_matrices@[0].at(
                                    i,
                                    j,
                                ));
                            } else {
                                pre.lemma_no_coface_of_absent(0, point(v), j);
                            }
                        }
                    }
                    assert(post.cofacets_wf(0)) by {
                        assert forall|i: int, w: usize| 0 <= i < post.count(0) implies (#[trigger] post.simplices@[0]@[i]@.contains(
                            w,
                        ) <==> post.has_coface_with(0, i, w)) by {
                            if i < k {
                                assert(post.simplices@[0]@[i] == pre.simplices@[0]@[i]);
                                assert(post.at(0, i) == pre.at(0, i));
                                if pre.has_coface_with(0, i, w) {
                                    let j = choose|j: int|
                                        0 <= j < pre.count(1) && extends(pre.at(0, i), w, #[trigger] pre.at(1, j));
                                    assert(post.at(1, j) == pre.at(1, j));
                                }
                                if post.has_coface_with(0, i, w) {
                                    let j = choose|j: int|
                                        0 <= j < post.count(1) && extends(
                                            post.at(0, i),
                                            w,
                                            #[trigger] post.at(1, j),
                                        );
                                    assert(post.at(1, j) == pre.at(1, j));
                                }
                            } else {
                                if post.has_coface_with(0, i, w) {
                                    let j = choose|j: int|
                                        0 <= j < post.count(1) && extends(
                                            post.at(0, i),
                                            w,
                                            #[trigger] post.at(1, j),
                                        );
                                    assert(post.at(1, j) == pre.at(1, j));
                                    pre.lemma_no_coface_of_absent(0, point(v), j);
                                }
                            }
                        }
                    }
                } else {
                    pre.lemma_level_kept(post, d);
                }
            }
            assert(post.oriented()) by {
                assert forall|a: usize, b: usize|
                    !(#[trigger] post.has_edge(a, b) && post.has_edge(b, a)) by {
                    assert(!(pre.has_edge(a, b) && pre.has_edge(b, a)));
                }
            }
            assert forall|t: Seq<usize>| #[trigger] post.has(t) <==> pre.has(t) || t == point(v) by {}
            if pre.is_flag() {
                assert forall|t: Seq<usize>| t.len() >= 3 && #[trigger] post.facets_held(t) implies post.has(t) by {
                    assert forall|p: int| 0 <= p < t.len() implies pre.has(#[trigger] t.remove(p)) by {
                        assert(post.has(t.remove(p)));
                        assert(point(v).len() == 1);
                    }
                    assert(pre.facets_held(t));
                }
            }
        }
    }

    /// Adds stores for one more dimension, all empty.
    pub fn push_level(&mut self)
        requires
            old(self).wf(),
        ensures
            final(self).wf(),
            final(self).levels() == old(self).levels() + 1,
            forall|s: Seq<usize>| #[trigger] final(self).has(s) <==> old(self).has(s),
            forall|e: int| #[trigger] final(self).count(e) == old(self).count(e),
            forall|e: int, k: int|
                0 <= e < old(self).levels() && 0 <= k < old(self).count(e) ==> #[trigger] final(self).at(e, k)
                    == old(self).at(e, k),
    {
        let ghost pre = *self;
        self.simplices.push(Vec::new());
        self.simplex_indices.push(new_table());
        self.boundary_matrices.push(zeros(0, 0));
        proof {
            let post = *self;
            let top = pre.levels();
            assert forall|e: int| #[trigger] post.count(e) == pre.count(e) by {}
            assert forall|e: int, f: Seq<usize>| pre.holds(e, f) <==> #[trigger] post.holds(e, f) by {
                if pre.holds(e, f) {
                    let j = choose|j: int| 0 <= j < pre.count(e) && #[trigger] pre.at(e, j) == f;
                    assert(post.at(e, j) == f);
                }
                if post.holds(e, f) {
                    let j = choose|j: int| 0 <= j < post.count(e) && #[trigger] post.at(e, j) == f;
                    assert(pre.at(e, j) == f);
                }
            }
            assert forall|d: int| 0 <= d < post.levels() implies #[trigger] post.level_wf(d) by {
                if d < top {
                    assert(pre.level_wf(d));
                    pre.lemma_level_kept(post, d);
                } else {
                    assert(post.table_wf(d));
                    assert(post.boundary_wf(d));
                    assert(post.cofacets_wf(d));
                    assert(post.closed_at(d));
                }
            }
            assert(post.oriented()) by {
                assert forall|a: usize, b: usize| !(#[trigger] post.has_edge(a, b) && post.has_edge(b, a)) by {
                    assert(!(pre.has_edge(a, b) && pre.has_edge(b, a)));
                }
            }
        }
    }

    /// The complex holds a simplex that is `f` with the vertex `w` put in.
    pub open spec fn has_extension(&self, f: Seq<usize>, w: usize) -> bool {
        exists|j: int| 0 <= j < self.count(f.len() as int) && extends(f, w, #[trigger] self.at(f.len() as int, j))
    }

    /// Each facet of `y`, with the vertex `w` put in, is a simplex of the
    /// complex: `w` can extend `y` to a simplex all of whose facets are there.
    pub open spec fn extends_all(&self, y: Seq<usize>, w: usize) -> bool {
        forall|p: int| 0 <= p < y.len() ==> self.has_extension(#[trigger] y.remove(p), w)
    }

    /// The extension set of the simplex `y`: the vertices that occur in the
    /// cofacet list of every facet of `y`.
    pub fn extension_set(&self, y: &Vec<usize>) -> (ext: Vec<usize>)
        requires
            self.wf(),
            2 <= y@.len() <= self.levels(),
            self.has(y@),
        ensures
            forall|w: usize| #[trigger] ext@.contains(w) <==> self.extends_all(y@, w),
    {
        let d = y.len() - 1;
        let mut ext: Vec<usize> = Vec::new();
        let mut p: usize = 0;
        proof {
            assert(self.level_wf(d as int));
            assert(self.level_wf(d - 1));
        }
        while p < y.len()
            invariant
                self.wf(),
                d == y@.len() - 1,
                1 <= d < self.levels(),
                self.has(y@),
                p <= y@.len(),
                p >= 1 ==> forall|w: usize| #[trigger]
                    ext@.contains(w) <==> (forall|q: int|
                        0 <= q < p ==> self.has_extension(#[trigger] y@.remove(q), w)),
            decreases y@.len() - p,
        {
            let f = facet(y, p);
            proof {
                assert(self.level_wf(d as int));
                assert(self.level_wf(d - 1));
                self.lemma_holds_pairs(d - 1, f@);
                let k = choose|k: int| 0 <= k < self.count(d as int) && #[trigger] self.at(d as int, k) == y@;
                assert(self.holds(d - 1, self.at(d as int, k).remove(p as int)));
            }
            match slot_of(&self.simplex_indices[d - 1], &f) {
                None => {
                    assert(false);
                },
                Some(r) => {
                    proof {
                        assert(self.at(d - 1, r as int) == f@);
                        assert(f@.len() == d);
                        assert forall|w: usize| #[trigger]
                            self.simplices@[d - 1]@[r as int]@.contains(w) <==> self.has_extension(
                                f@,
                                w,
                            ) by {
                            assert(self.simplices@[d - 1]@[r as int]@.contains(w) <==> self.has_coface_with(
                                d - 1,
                                r as int,
                                w,
                            ));
                        }
                    }
                    if p == 0 {
                        ext = copy_of(&self.simplices[d - 1][r]);
                    } else {
                        ext = common_vertices(&ext, &self.simplices[d - 1][r]);
                    }
                },
            }
            proof {
                let list = self.simplices@[d - 1]@;
                assert forall|w: usize| #[trigger]
                    ext@.contains(w) <==> (forall|q: int|
                        0 <= q < p + 1 ==> self.has_extension(#[trigger] y@.remove(q), w)) by {
                    if ext@.contains(w) {
                        assert forall|q: int| 0 <= q < p + 1 implies self.has_extension(
                            #[trigger] y@.remove(q),
                            w,
                        ) by {}
                    }
                }
            }
            p += 1;
        }
        ext
    }

    /// Where `w` goes into `y`, from position `i` on: before the first vertex
    /// at or after `i` to which the complex has an edge from `w`, or at the
    /// end if there is none.
    pub open spec fn entry_from(&self, y: Seq<usize>, w: usize, i: int) -> int
        decreases y.len() - i,
    {
        if i < 0 || i >= y.len() {
            y.len() as int
        } else if self.has_edge(w, y[i]) {
            i
        } else {
            self.entry_from(y, w, i + 1)
        }
    }

    /// Where `w` goes into `y`: before the first vertex of `y` to which the
    /// complex has an edge from `w`, or at the end if there is none.
    pub open spec fn entry_point(&self, y: Seq<usize>, w: usize) -> int {
        self.entry_from(y, w, 0)
    }

    /// `y` with the vertex `w` put in where the edges of the complex place it.
    pub fn coface_with(&self, y: &Vec<usize>, w: usize) -> (t: Vec<usize>)
        requires
            self.wf(),
            self.levels() >= 2,
        ensures
            0 <= self.entry_point(y@, w) <= y@.len(),
            t@ == y@.insert(self.entry_point(y@, w), w),
    {
        let mut i: usize = 0;
        let mut found = false;
        while i < y.len() && !found
            invariant
                self.wf(),
                self.levels() >= 2,
                i <= y@.len(),
                !found ==> self.entry_point(y@, w) == self.entry_from(y@, w, i as int),
                found ==> i < y@.len() && self.entry_point(y@, w) == i,
            decreases y@.len() - i + (if found { 0int } else { 1int }),
        {
            let mut e: Vec<usize> = Vec::new();
            e.push(w);
            e.push(y[i]);
            assert(e@ == edge(w, y@[i as int]));
            proof {
                assert(self.level_wf(1));
                self.lemma_holds_pairs(1, e@);
            }
            if holds_simplex(&self.simplex_indices[1], &e) {
                found = true;
            } else {
                i += 1;
            }
        }
        let mut t = copy_of(y);
        t.insert(i, w);
        t
    }

    /// The complex holds an edge between `a` and `b`, in one direction or the
    /// other.
    pub open spec fn adjacent(&self, a: usize, b: usize) -> bool {
        self.has_edge(a, b) || self.has_edge(b, a)
    }

    /// The complex lacks `x` but holds all its facets and, where `x` is an
    /// edge, does not hold the edge in the other direction.
    pub open spec fn admits(&self, x: Seq<usize>) -> bool {
        &&& !self.has(x)
        &&& forall|p: int| 0 <= p < x.len() ==> self.holds(x.len() - 2, #[trigger] x.remove(p))
        &&& x.len() == 2 ==> !self.has_edge(x[1], x[0])
    }

    /// Puts the simplex `x`, of dimension 1 or more, into the complex if the
    /// complex admits it, and says whether it did. The new simplex takes the
    /// next free slot of its dimension; no other slot changes.
    pub fn try_insert(&mut self, x: &Vec<usize>) -> (inserted: bool)
        requires
            old(self).wf(),
            2 <= x@.len() <= old(self).levels(),
            x@.no_duplicates(),
        ensures
            final(self).wf(),
            final(self).levels() == old(self).levels(),
            inserted == old(self).admits(x@),
            forall|s: Seq<usize>| #[trigger] final(self).has(s) <==> old(self).has(s) || (inserted && s == x@),
            forall|e: int|
                0 <= e < old(self).levels() ==> #[trigger] final(self).count(e) == old(self).count(e) + (
                if inserted && e == x@.len() - 1 {
                    1int
                } else {
                    0int
                }),
            forall|e: int, k: int|
                0 <= e < old(self).levels() && 0 <= k < old(self).count(e) ==> #[trigger] final(self).at(e, k)
                    == old(self).at(e, k),
            inserted ==> final(self).at(x@.len() - 1, old(self).count(x@.len() - 1)) == x@,
    {
        let d = x.len() - 1;
        let ghost pre = *self;
        proof {
            assert(pre.level_wf(d as int));
            assert(pre.level_wf(d - 1));
            pre.lemma_holds_pairs(d as int, x@);
        }
        if holds_simplex(&self.simplex_indices[d], x) {
            return false;
        }
        if d == 1 {
            let mut rev: Vec<usize> = Vec::new();
            rev.push(x[1]);
            rev.push(x[0]);
            assert(rev@ == edge(x@[1], x@[0]));
            proof {
                pre.lemma_holds_pairs(1, rev@);
            }
            if holds_simplex(&self.simplex_indices[1], &rev) {
                return false;
            }
        }
        let mut rows: Vec<usize> = Vec::new();
        let mut p: usize = 0;
        while p < x.len()
            invariant
                *self == pre,
                pre.wf(),
                d == x@.len() - 1,
                1 <= d < pre.levels(),
                p <= x@.len(),
                rows@.len() == p,
                forall|q: int|
                    0 <= q < p ==> (#[trigger] rows@[q]) < pre.count(d - 1) && pre.at(d - 1, rows@[q] as int)
                        == x@.remove(q),
            decreases x@.len() - p,
        {
            let f = facet(x, p);
            proof {
                assert(pre.level_wf(d - 1));
                pre.lemma_holds_pairs(d - 1, f@);
            }
            match slot_of(&self.simplex_indices[d - 1], &f) {
                None => {
                    assert(!pre.holds(d - 1, x@.remove(p as int)));
                    return false;
                },
                Some(r) => {
                    rows.push(r);
                },
            }
            p += 1;
        }
        proof {
            assert forall|q: int| 0 <= q < x@.len() implies pre.holds(
                x@.len() - 2,
                #[trigger] x@.remove(q),
            ) by {
                assert(pre.at(d - 1, rows@[q] as int) == x@.remove(q));
            }
            assert(pre.admits(x@));
        }
        let k = self.simplices[d].len();
        let copy = copy_of(x);
        put(&mut self.simplex_indices[d], k, copy);
        self.simplices[d].push(Vec::new());
        let held = self.simplices[d].len();
        proof {
            assert(held == k + 1);
            assert(pre.level_wf(d as int));
            assert(pre.level_wf(d - 1));
            assert(self.boundary_matrices@[d as int].height() == k);
            assert(self.boundary_matrices@[d - 1].width() == k);
        }
        self.add_row(d);
        self.add_column(d - 1, &rows);
        let ghost mid = *self;
        let ghost n1 = pre.count(d - 1);
        let mut p: usize = 0;
        while p < x.len()
            invariant
                pre.wf(),
                d == x@.len() - 1,
                1 <= d < pre.levels(),
                k == pre.count(d as int),
                n1 == pre.count(d - 1),
                p <= x@.len(),
                rows@.len() == x@.len(),
                forall|q: int|
                    0 <= q < x@.len() ==> (#[trigger] rows@[q]) < n1 && pre.at(d - 1, rows@[q] as int)
                        == x@.remove(q),
                self.simplex_indices@ == mid.simplex_indices@,
                self.simplices@.len() == mid.simplices@.len(),
                self.boundary_matrices@.len() == mid.boundary_matrices@.len(),
                mid.simplices@.len() == pre.levels(),
                mid.boundary_matrices@.len() == pre.levels(),
                forall|e: int|
                    0 <= e < pre.levels() && e != d - 1 ==> #[trigger] self.simplices@[e] == mid.simplices@[e],
                self.boundary_matrices@ == mid.boundary_matrices@,
                self.simplices@[d - 1]@.len() == n1,
                pre.simplices@[d - 1]@.len() == n1,
                forall|r: int| 0 <= r < n1 ==> (#[trigger] self.simplices@[d - 1]@[r])@.no_duplicates(),
                forall|r: int, v: usize|
                    0 <= r < n1 ==> (#[trigger] self.simplices@[d - 1]@[r]@.contains(v)
                        <==> pre.simplices@[d - 1]@[r]@.contains(v) || is_cofacet_before(
                        rows@,
                        x@,
                        p as int,
                        r,
                        v,
                    )),
            decreases x@.len() - p,
        {
            let r = rows[p];
            let v = x[p];
            let ghost before = *self;
            if position(&self.simplices[d - 1][r], v).is_none() {
                self.simplices[d - 1][r].push(v);
            }
            proof {
                assert forall|r2: int, w: usize| 0 <= r2 < n1 implies (#[trigger] self.simplices@[d
                    - 1]@[r2]@.contains(w) <==> pre.simplices@[d - 1]@[r2]@.contains(w)
                    || is_cofacet_before(rows@, x@, p + 1, r2, w)) by {
                    let old_list = before.simplices@[d - 1]@[r2]@;
                    let new_list = self.simplices@[d - 1]@[r2]@;
                    assert(old_list.contains(w) <==> pre.simplices@[d - 1]@[r2]@.contains(w)
                        || is_cofacet_before(rows@, x@, p as int, r2, w));
                    if is_cofacet_before(rows@, x@, p as int, r2, w) {
                        let q = choose|q: int| 0 <= q < p && #[trigger] rows@[q] == r2 && x@[q] == w;
                        assert(rows@[q] == r2 && x@[q] == w);
                    }
                    if r2 == r && w == v {
                        assert(rows@[p as int] == r2 && x@[p as int] == w);
                    }
                    if is_cofacet_before(rows@, x@, p + 1, r2, w) {
                        let q = choose|q: int|
                            0 <= q < p + 1 && #[trigger] rows@[q] == r2 && x@[q] == w;
                        if q < p {
                            assert(is_cofacet_before(rows@, x@, p as int, r2, w));
                        }
                    }
                    if r2 == r {
                        if new_list != old_list {
                            assert(new_list == old_list.push(v));
                            if old_list.contains(w) {
                                let i = choose|i: int| 0 <= i < old_list.len() && old_list[i] == w;
                                assert(new_list[i] == w);
                            }
                            if w == v {
                                assert(new_list[old_list.len() as int] == v);
                            }
                            if new_list.contains(w) {
                                let i = choose|i: int| 0 <= i < new_list.len() && new_list[i] == w;
                                if i < old_list.len() {
                                    assert(old_list[i] == w);
                                }
                            }
                        }
                    } else {
                        assert(new_list == old_list);
                    }
                }
                assert forall|r2: int| 0 <= r2 < n1 implies (#[trigger] self.simplices@[d
                    - 1]@[r2])@.no_duplicates() by {
                    let old_list = before.simplices@[d - 1]@[r2]@;
                    let new_list = self.simplices@[d - 1]@[r2]@;
                    assert(old_list.no_duplicates());
                    if r2 == r && new_list != old_list {
                        assert(new_list == old_list.push(v));
                        assert(!old_list.contains(v));
                        assert forall|i: int, j: int|
                            0 <= i < new_list.len() && 0 <= j < new_list.len() && i
                                != j implies new_list[i] != new_list[j] by {
                            if i < old_list.len() {
                                assert(old_list[i] == new_list[i]);
                                assert(old_list.contains(new_list[i]));
                            }
                            if j < old_list.len() {
                                assert(old_list[j] == new_list[j]);
                                assert(old_list.contains(new_list[j]));
                            }
                        }
                    } else {
                        assert(new_list == old_list);
                    }
                }
            }
            p += 1;
        }
        proof {
            pre.lemma_inserted(*self, x@, rows@, k);
        }
        true
    }

    /// What has to hold of the stores after a simplex was put in, and that it
    /// makes the complex well formed again.
    proof fn lemma_inserted(&self, post: SimplicialComplex, x: Seq<usize>, rows: Seq<usize>, slot: usize)
        requires
            self.wf(),
            2 <= x.len() <= self.levels(),
            x.no_duplicates(),
            self.admits(x),
            slot == self.count(x.len() - 1),
            rows.len() == x.len(),
            forall|q: int|
                0 <= q < x.len() ==> (#[trigger] rows[q]) < self.count(x.len() - 2) && self.at(
                    x.len() - 2,
                    rows[q] as int,
                ) == x.remove(q),
            post.simplex_indices@.len() == self.levels(),
            post.simplices@.len() == self.levels(),
            post.boundary_matrices@.len() == self.levels(),
            forall|e: int|
                0 <= e < self.levels() && e != x.len() - 1 ==> #[trigger] post.simplex_indices@[e]
                    == self.simplex_indices@[e],
            table_pairs(post.simplex_indices@[x.len() - 1]) == pairs_with(
                table_pairs(self.simplex_indices@[x.len() - 1]),
                slot,
                x,
            ),
            forall|e: int|
                0 <= e < self.levels() && e != x.len() - 1 && e != x.len() - 2 ==> #[trigger] post.simplices@[e]
                    == self.simplices@[e],
            post.simplices@[x.len() - 1]@.len() == self.count(x.len() - 1) + 1,
            forall|i: int|
                0 <= i < self.count(x.len() - 1) ==> #[trigger] post.simplices@[x.len() - 1]@[i]
                    == self.simplices@[x.len() - 1]@[i],
            post.simplices@[x.len() - 1]@[self.count(x.len() - 1)]@.len() == 0,
            post.simplices@[x.len() - 2]@.len() == self.count(x.len() - 2),
            forall|r: int|
                0 <= r < self.count(x.len() - 2) ==> (#[trigger] post.simplices@[x.len() - 2]@[r])@.no_duplicates(),
            forall|r: int, v: usize|
                0 <= r < self.count(x.len() - 2) ==> (#[trigger] post.simplices@[x.len() - 2]@[r]@.contains(v)
                    <==> self.simplices@[x.len() - 2]@[r]@.contains(v) || is_cofacet_before(
                    rows,
                    x,
                    x.len() as int,
                    r,
                    v,
                )),
            forall|e: int|
                0 <= e < self.levels() && e != x.len() - 1 && e != x.len() - 2 ==> #[trigger] post.boundary_matrices@[e]
                    == self.boundary_matrices@[e],
            post.boundary_matrices@[x.len() - 1].height() == self.count(x.len() - 1) + 1,
            post.boundary_matrices@[x.len() - 1].width() == self.count(x.len() as int),
            forall|i: int, j: int|
                0 <= i <= self.count(x.len() - 1) && 0 <= j < self.count(x.len() as int) ==> #[trigger] post.boundary_matrices@[x.len()
                    - 1].at(i, j) == (if i < self.count(x.len() - 1) {
                    self.boundary_matrices@[x.len() - 1].at(i, j)
                } else {
                    0u64
                }),
            post.boundary_matrices@[x.len() - 2].height() == self.count(x.len() - 2),
            post.boundary_matrices@[x.len() - 2].width() == self.count(x.len() - 1) + 1,
            forall|i: int, j: int|
                0 <= i < self.count(x.len() - 2) && 0 <= j < self.count(x.len() - 1) ==> #[trigger] post.boundary_matrices@[x.len()
                    - 2].at(i, j) == self.boundary_matrices@[x.len() - 2].at(i, j),
            forall|i: int|
                0 <= i < self.count(x.len() - 2) ==> #[trigger] post.boundary_matrices@[x.len() - 2].at(
                    i,
                    self.count(x.len() - 1),
                ) == (if is_row_before(rows, x.len() as int, i) {
                    1u64
                } else {
                    0u64
                }),
        ensures
            post.wf(),
            post.levels() == self.levels(),
            forall|s: Seq<usize>| #[trigger] post.has(s) <==> self.has(s) || s == x,
            forall|e: int|
                0 <= e < self.levels() ==> #[trigger] post.count(e) == self.count(e) + (if e == x.len() - 1 {
                    1int
                } else {
                    0int
                }),
            forall|e: int, k: int|
                0 <= e < self.levels() && 0 <= k < self.count(e) ==> #[trigger] post.at(e, k) == self.at(e, k),
            post.at(x.len() - 1, self.count(x.len() - 1)) == x,
    {
        let pre = *self;
        let d = x.len() - 1;
        let k = slot as int;
        assert(pre.level_wf(d));
        assert(pre.level_wf(d - 1));
        assert(post.count(d) == k + 1);
        assert(post.count(d - 1) == pre.count(d - 1));
        assert forall|e: int| 0 <= e < pre.levels() implies #[trigger] post.count(e) == pre.count(e) + (
        if e == d {
            1int
        } else {
            0int
        }) by {
            if e != d && e != d - 1 {
                assert(post.simplices@[e] == pre.simplices@[e]);
            }
        }
        assert forall|e: int, j: int| 0 <= e < pre.levels() && 0 <= j < pre.count(e) implies #[trigger] post.at(
            e,
            j,
        ) == pre.at(e, j) by {
            if e == d {
                assert(table_pairs(pre.simplex_indices@[d]).dom().contains(j as usize));
                if pre.at(d, j) == x {
                    assert(pre.holds(d, x));
                }
            } else {
                assert(post.simplex_indices@[e] == pre.simplex_indices@[e]);
            }
        }
        assert(post.at(d, k) == x);
        assert forall|e: int, f: Seq<usize>| pre.holds(e, f) implies #[trigger] post.holds(e, f) by {
            let j = choose|j: int| 0 <= j < pre.count(e) && #[trigger] pre.at(e, j) == f;
            assert(post.at(e, j) == f);
        }
        assert forall|e: int, f: Seq<usize>| #[trigger] post.holds(e, f) implies pre.holds(e, f) || (e
            == d && f == x) by {
            let j = choose|j: int| 0 <= j < post.count(e) && #[trigger] post.at(e, j) == f;
            if e == d && j == k {
            } else {
                assert(pre.at(e, j) == f);
            }
        }
        assert(post.holds(d, x));
        assert forall|t: Seq<usize>| #[trigger] post.has(t) <==> pre.has(t) || t == x by {}
        // the rows of the facets of `x`, both ways
        assert forall|i: int| 0 <= i < pre.count(d - 1) implies (is_row_before(rows, x.len() as int, i)
            <==> is_facet(#[trigger] pre.at(d - 1, i), x)) by {
            if is_row_before(rows, x.len() as int, i) {
                let q = choose|q: int| 0 <= q < x.len() && #[trigger] rows[q] == i;
                assert(is_facet_at(pre.at(d - 1, i), x, q));
            }
            if is_facet(pre.at(d - 1, i), x) {
                let q = choose|q: int| #[trigger] is_facet_at(pre.at(d - 1, i), x, q);
                assert(pre.at(d - 1, rows[q] as int) == x.remove(q));
                assert(rows[q] == i);
            }
        }
        assert forall|i: int, v: usize| 0 <= i < pre.count(d - 1) implies (is_cofacet_before(
            rows,
            x,
            x.len() as int,
            i,
            v,
        ) <==> #[trigger] extends(pre.at(d - 1, i), v, x)) by {
            if is_cofacet_before(rows, x, x.len() as int, i, v) {
                let q = choose|q: int| 0 <= q < x.len() && #[trigger] rows[q] == i && x[q] == v;
                assert(is_facet_at(pre.at(d - 1, i), x, q));
            }
            if extends(pre.at(d - 1, i), v, x) {
                let q = choose|q: int| #[trigger] is_facet_at(pre.at(d - 1, i), x, q) && x[q] == v;
                assert(pre.at(d - 1, rows[q] as int) == x.remove(q));
                assert(rows[q] == i);
            }
        }
        assert forall|e: int| 0 <= e < post.levels() implies #[trigger] post.level_wf(e) by {
            assert(pre.level_wf(e));
            if e == d {
                assert(post.table_wf(d)) by {
                    assert forall|kk: usize| #[trigger]
                        table_pairs(post.simplex_indices@[d]).dom().contains(kk) <==> kk < post.count(
                            d,
                        ) by {
                        if kk < slot {
                            assert(table_pairs(pre.simplex_indices@[d]).dom().contains(kk));
                            if pre.at(d, kk as int) == x {
                                assert(pre.holds(d, x));
                            }
                        } else if kk > slot {
                            assert(!table_pairs(pre.simplex_indices@[d]).dom().contains(kk));
                        }
                    }
                    assert forall|j: int| 0 <= j < post.count(d) implies (#[trigger] post.at(d, j)).len()
                        == d + 1 && post.at(d, j).no_duplicates() by {
                        if j < k {
                            assert(post.at(d, j) == pre.at(d, j));
                        }
                    }
                    assert forall|k1: int, k2: int|
                        0 <= k1 < post.count(d) && 0 <= k2 < post.count(d) && k1
                            != k2 implies #[trigger] post.at(d, k1) != #[trigger] post.at(d, k2) by {
                        if k1 < k {
                            assert(post.at(d, k1) == pre.at(d, k1));
                            assert(pre.holds(d, pre.at(d, k1)));
                        }
                        if k2 < k {
                            assert(post.at(d, k2) == pre.at(d, k2));
                            assert(pre.holds(d, pre.at(d, k2)));
                        }
                    }
                }
                assert(post.boundary_wf(d)) by {
                    assert forall|i: int, j: int|
                        0 <= i < post.count(d) && 0 <= j < post.count(d + 1) implies #[trigger] post.boundary_matrices@[d].at(
                        i,
                        j,
                    ) == (if is_facet(post.at(d, i), post.at(d + 1, j)) {
                        1u64
                    } else {
                        0u64
                    }) by {
                        assert(post.at(d + 1, j) == pre.at(d + 1, j));
                        if i < k {
                            assert(post.at(d, i) == pre.at(d, i));
                            assert(post.boundary_matrices@[d].at(i, j) == pre.boundary_matrices@[d].at(i, j));
                        } else {
                            pre.lemma_no_coface_of_absent(d, x, j);
                        }
                    }
                }
                assert(post.cofacets_wf(d)) by {
                    assert forall|i: int, w: usize| 0 <= i < post.count(d) implies (#[trigger] post.simplices@[d]@[i]@.contains(
                        w,
                    ) <==> post.has_coface_with(d, i, w)) by {
                        if i < k {
                            assert(post.simplices@[d]@[i] == pre.simplices@[d]@[i]);
                            assert(post.at(d, i) == pre.at(d, i));
                            assert(pre.simplices@[d]@[i]@.contains(w) <==> pre.has_coface_with(d, i, w));
                            if pre.has_coface_with(d, i, w) {
                                let j = choose|j: int|
                                    0 <= j < pre.count(d + 1) && extends(pre.at(d, i), w, #[trigger] pre.at(d + 1, j));
                                assert(post.at(d + 1, j) == pre.at(d + 1, j));
                            }
                            if post.has_coface_with(d, i, w) {
                                let j = choose|j: int|
                                    0 <= j < post.count(d + 1) && extends(
                                        post.at(d, i),
                                        w,
                                        #[trigger] post.at(d + 1, j),
                                    );
                                assert(post.at(d + 1, j) == pre.at(d + 1, j));
                            }
                        } else {
                            if post.has_coface_with(d, i, w) {
                                let j = choose|j: int|
                                    0 <= j < post.count(d + 1) && extends(
                                        post.at(d, i),
                                        w,
                                        #[trigger] post.at(d + 1, j),
                                    );
                                assert(post.at(d + 1, j) == pre.at(d + 1, j));
                                pre.lemma_no_coface_of_absent(d, x, j);
                            }
                        }
                    }
                    assert forall|i: int| 0 <= i < post.count(d) implies (#[trigger] post.simplices@[d]@[i])@.no_duplicates() by {
                        if i < k {
                            assert(post.simplices@[d]@[i] == pre.simplices@[d]@[i]);
                        }
                    }
                }
                assert(post.closed_at(d)) by {
                    assert forall|j: int, p: int| 0 <= j < post.count(d) && 0 <= p <= d implies post.holds(
                        d - 1,
                        #[trigger] post.at(d, j).remove(p),
                    ) by {
                        if j < k {
                            assert(post.at(d, j) == pre.at(d, j));
                            assert(pre.holds(d - 1, pre.at(d, j).remove(p)));
                        } else {
                            assert(pre.holds(d - 1, x.remove(p)));
                        }
                    }
                }
            } else if e == d - 1 {
                pre.lemma_table_kept(post, e);
                pre.lemma_closed_kept(post, e);
                assert(post.boundary_wf(e)) by {
                    assert forall|i: int, j: int|
                        0 <= i < post.count(e) && 0 <= j < post.count(e + 1) implies #[trigger] post.boundary_matrices@[e].at(
                        i,
                        j,
                    ) == (if is_facet(post.at(e, i), post.at(e + 1, j)) {
                        1u64
                    } else {
                        0u64
                    }) by {
                        assert(post.at(e, i) == pre.at(e, i));
                        if j < k {
                            assert(post.at(d, j) == pre.at(d, j));
                            assert(post.boundary_matrices@[e].at(i, j) == pre.boundary_matrices@[e].at(i, j));
                        } else {
                            assert(is_row_before(rows, x.len() as int, i) <==> is_facet(pre.at(d - 1, i), x));
                        }
                    }
                }
                assert(post.cofacets_wf(e)) by {
                    assert forall|i: int, w: usize| 0 <= i < post.count(e) implies (#[trigger] post.simplices@[e]@[i]@.contains(
                        w,
                    ) <==> post.has_coface_with(e, i, w)) by {
                        assert(post.at(e, i) == pre.at(e, i));
                        assert(pre.simplices@[e]@[i]@.contains(w) <==> pre.has_coface_with(e, i, w));
                        assert(is_cofacet_before(rows, x, x.len() as int, i, w) <==> extends(
                            pre.at(d - 1, i),
                            w,
                            x,
                        ));
                        if pre.has_coface_with(e, i, w) {
                            let j = choose|j: int|
                                0 <= j < pre.count(e + 1) && extends(pre.at(e, i), w, #[trigger] pre.at(e + 1, j));
                            assert(post.at(e + 1, j) == pre.at(e + 1, j));
                        }
                        if extends(pre.at(d - 1, i), w, x) {
                            assert(post.at(e + 1, k) == x);
                        }
                        if post.has_coface_with(e, i, w) {
                            let j = choose|j: int|
                                0 <= j < post.count(e + 1) && extends(post.at(e, i), w, #[trigger] post.at(e + 1, j));
                            if j < k {
                                assert(post.at(e + 1, j) == pre.at(e + 1, j));
                            }
                        }
                    }
                }
            } else {
                pre.lemma_level_kept(post, e);
            }
        }
        assert(post.oriented()) by {
            assert forall|a: usize, b: usize| !(#[trigger] post.has_edge(a, b) && post.has_edge(b, a)) by {
                assert(!(pre.has_edge(a, b) && pre.has_edge(b, a)));
                if post.has_edge(a, b) && post.has_edge(b, a) {
                    if d == 1 {
                        if edge(a, b) == x {
                            assert(edge(a, b)[0] == x[0] && edge(a, b)[1] == x[1]);
                        }
                        if edge(b, a) == x {
                            assert(edge(b, a)[0] == x[0] && edge(b, a)[1] == x[1]);
                        }
                    }
                }
            }
        }
    }

    /// The complex holds `s` in dimension `d` exactly if the slot table of
    /// that dimension holds it.
    pub proof fn lemma_holds_pairs(&self, d: int, s: Seq<usize>)
        requires
            0 <= d < self.levels(),
            self.table_wf(d),
        ensures
            self.holds(d, s) <==> pairs_hold(table_pairs(self.simplex_indices@[d]), s),
            forall|k: usize|
                table_pairs(self.simplex_indices@[d]).dom().contains(k) ==> k < self.count(d) && self.at(
                    d,
                    k as int,
                ) == #[trigger] table_pairs(self.simplex_indices@[d])[k],
    {
        let t = table_pairs(self.simplex_indices@[d]);
        if self.holds(d, s) {
            let k = choose|k: int| 0 <= k < self.count(d) && #[trigger] self.at(d, k) == s;
            assert(t.dom().contains(k as usize));
            assert(t[k as usize] == s);
        }
        if pairs_hold(t, s) {
            let k = choose|k: usize| #[trigger] t.dom().contains(k) && t[k] == s;
            assert(self.at(d, k as int) == s);
        }
    }

    /// The slot table of dimension `d` stays well formed where it is the same
    /// in `post`.
    pub proof fn lemma_table_kept(&self, post: SimplicialComplex, d: int)
        requires
            0 <= d < self.levels(),
            self.table_wf(d),
            d < post.levels(),
            post.simplex_indices@[d] == self.simplex_indices@[d],
            post.count(d) == self.count(d),
        ensures
            post.table_wf(d),
    {
        assert forall|k: int| 0 <= k < post.count(d) implies (#[trigger] post.at(d, k)).len() == d + 1
            && post.at(d, k).no_duplicates() by {
            assert(post.at(d, k) == self.at(d, k));
        }
        assert forall|k1: int, k2: int|
            0 <= k1 < post.count(d) && 0 <= k2 < post.count(d) && k1 != k2 implies #[trigger] post.at(d, k1)
                != #[trigger] post.at(d, k2) by {
            assert(post.at(d, k1) == self.at(d, k1));
            assert(post.at(d, k2) == self.at(d, k2));
        }
    }

    /// The simplices of dimension `d` keep their facets where the slot table
    /// of that dimension is the same in `post`, and `post` holds every simplex
    /// of the dimension below that `self` holds.
    pub proof fn lemma_closed_kept(&self, post: SimplicialComplex, d: int)
        requires
            0 <= d < self.levels(),
            self.closed_at(d),
            d < post.levels(),
            post.simplex_indices@[d] == self.simplex_indices@[d],
            post.count(d) == self.count(d),
            d >= 1 ==> forall|f: Seq<usize>| self.holds(d - 1, f) ==> #[trigger] post.holds(d - 1, f),
        ensures
            post.closed_at(d),
    {
        if d >= 1 {
            assert forall|k: int, p: int| 0 <= k < post.count(d) && 0 <= p <= d implies post.holds(
                d - 1,
                #[trigger] post.at(d, k).remove(p),
            ) by {
                assert(post.at(d, k) == self.at(d, k));
                assert(self.holds(d - 1, self.at(d, k).remove(p)));
            }
        }
    }

    /// A sequence that the complex does not hold is no facet of a simplex
    /// that it holds.
    pub proof fn lemma_no_coface_of_absent(&self, d: int, f: Seq<usize>, j: int)
        requires
            self.wf(),
            0 <= d,
            !self.holds(d, f),
            0 <= j < self.count(d + 1),
        ensures
            !is_facet(f, self.at(d + 1, j)),
            forall|w: usize| !#[trigger] extends(f, w, self.at(d + 1, j)),
    {
        assert(self.level_wf(d + 1));
        if is_facet(f, self.at(d + 1, j)) {
            let p = choose|p: int| #[trigger] is_facet_at(f, self.at(d + 1, j), p);
            assert(self.holds(d, self.at(d + 1, j).remove(p)));
        }
        assert forall|w: usize| !#[trigger] extends(f, w, self.at(d + 1, j)) by {
            if extends(f, w, self.at(d + 1, j)) {
                let p = choose|p: int| #[trigger]
                    is_facet_at(f, self.at(d + 1, j), p) && self.at(d + 1, j)[p] == w;
                assert(is_facet_at(f, self.at(d + 1, j), p));
            }
        }
    }

    /// The stores of dimension `d` stay in step where they and the table of
    /// the dimension above are the same in `post`, and `post` holds every
    /// simplex of the dimension below that `self` holds.
    pub proof fn lemma_level_kept(&self, post: SimplicialComplex, d: int)
        requires
            0 <= d < self.levels(),
            self.level_wf(d),
            d < post.levels(),
            post.simplices@[d] == self.simplices@[d],
            post.simplex_indices@[d] == self.simplex_indices@[d],
            post.boundary_matrices@[d] == self.boundary_matrices@[d],
            post.count(d + 1) == self.count(d + 1),
            forall|j: int| 0 <= j < self.count(d + 1) ==> #[trigger] post.at(d + 1, j) == self.at(d + 1, j),
            d >= 1 ==> forall|f: Seq<usize>| self.holds(d - 1, f) ==> #[trigger] post.holds(d - 1, f),
        ensures
            post.level_wf(d),
    {
        self.lemma_stores_kept(post, d);
        self.lemma_closed_kept(post, d);
    }

    /// The slot table, the boundary matrix and the cofacet table of dimension
    /// `d` stay in step where they and the slot table of the dimension above
    /// are the same in `post`.
    pub proof fn lemma_stores_kept(&self, post: SimplicialComplex, d: int)
        requires
            0 <= d < self.levels(),
            self.level_wf(d),
            d < post.levels(),
            post.simplices@[d] == self.simplices@[d],
            post.simplex_indices@[d] == self.simplex_indices@[d],
            post.boundary_matrices@[d] == self.boundary_matrices@[d],
            post.count(d + 1) == self.count(d + 1),
            forall|j: int| 0 <= j < self.count(d + 1) ==> #[trigger] post.at(d + 1, j) == self.at(d + 1, j),
        ensures
            post.table_wf(d),
            post.boundary_wf(d),
            post.cofacets_wf(d),
    {
        assert forall|k: int| 0 <= k < self.count(d) implies #[trigger] post.at(d, k) == self.at(d, k) by {}
        assert(post.count(d) == self.count(d));
        assert(post.table_wf(d)) by {
            assert forall|k: int| 0 <= k < post.count(d) implies (#[trigger] post.at(d, k)).len() == d + 1
                && post.at(d, k).no_duplicates() by {
                assert(post.at(d, k) == self.at(d, k));
            }
        }
        assert(post.boundary_wf(d)) by {
            assert forall|i: int, j: int|
                0 <= i < post.count(d) && 0 <= j < post.count(d + 1) implies #[trigger] post.boundary_matrices@[d].at(
                i,
                j,
            ) == (if is_facet(post.at(d, i), post.at(d + 1, j)) {
                1u64
            } else {
                0u64
            }) by {
                assert(post.at(d, i) == self.at(d, i));
                assert(post.at(d + 1, j) == self.at(d + 1, j));
                assert(self.boundary_matrices@[d].at(i, j) == (if is_facet(
                    self.at(d, i),
                    self.at(d + 1, j),
                ) {
                    1u64
                } else {
                    0u64
                }));
            }
        }
        assert(post.cofacets_wf(d)) by {
            assert forall|k: int, v: usize| 0 <= k < post.count(d) implies (#[trigger] post.simplices@[d]@[k]@.contains(
                v,
            ) <==> post.has_coface_with(d, k, v)) by {
                assert(post.at(d, k) == self.at(d, k));
                assert(self.simplices@[d]@[k]@.contains(v) <==> self.has_coface_with(d, k, v));
                if self.has_coface_with(d, k, v) {
                    let j = choose|j: int|
                        0 <= j < self.count(d + 1) && extends(self.at(d, k), v, #[trigger] self.at(d + 1, j));
                    assert(post.at(d + 1, j) == self.at(d + 1, j));
                }
                if post.has_coface_with(d, k, v) {
                    let j = choose|j: int|
                        0 <= j < post.count(d + 1) && extends(post.at(d, k), v, #[trigger] post.at(d + 1, j));
                    assert(post.at(d + 1, j) == self.at(d + 1, j));
                }
            }
        }
    }
}

} // verus!
