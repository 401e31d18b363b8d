//! Complexes whose edges are the steps of one directed path: they have no
//! triangle and no hole.

use crate::complex::SimplicialComplex;
use crate::laws::has_edge_more;
use crate::matrix::grid;
use crate::rank::{has_shape, is_binary_grid, lemma_rank_from_bounds};
use crate::rank_laws::{bits, lemma_rank_is_dimension};
use crate::simplex::{copy_of, edge, is_facet, is_facet_at, point};
use crate::span::{
    all_rearranged, all_wide, is_permutation, lemma_rank_of_spanned, lemma_rank_of_staircase, lemma_rearranged,
    lemma_row_in_span, rk, zero,
};
use vstd::prelude::*;

verus! {

/// The edge from `a` to `b` is a step of `path`: `b` follows `a` there.
pub open spec fn is_step(path: Seq<usize>, a: usize, b: usize) -> bool {
    exists|i: int| 0 <= i < path.len() - 1 && #[trigger] path[i] == a && path[i + 1] == b
}

/// A vertex is a facet of an edge exactly if it is one of its ends.
pub proof fn lemma_ends_of_edge(v: usize, a: usize, b: usize)
    ensures
        is_facet(point(v), edge(a, b)) <==> v == a || v == b,
{
    let e = edge(a, b);
    assert(e.remove(0) =~= point(b));
    assert(e.remove(1) =~= point(a));
    if is_facet(point(v), e) {
        let p = choose|p: int| is_facet_at(point(v), e, p);
        assert(point(v)[0] == v);
        assert(point(a)[0] == a && point(b)[0] == b);
    }
    if v == a {
        assert(is_facet_at(point(v), e, 1));
    }
    if v == b {
        assert(is_facet_at(point(v), e, 0));
    }
}

impl SimplicialComplex {
    /// The edges of the complex are exactly the steps of `path`.
    pub open spec fn steps_along(&self, path: Seq<usize>) -> bool {
        forall|a: usize, b: usize| #[trigger] self.has_edge(a, b) <==> is_step(path, a, b)
    }

    /// The edges of the complex are the steps of `path`, a sequence of two or
    /// more vertices without repeats.
    pub open spec fn is_path(&self, path: Seq<usize>) -> bool {
        &&& self.wf()
        &&& path.no_duplicates()
        &&& path.len() >= 2
        &&& self.steps_along(path)
    }

    /// A complex without edges steps along any single vertex.
    pub proof fn lemma_path_starts(&self, v: usize)
        requires
            forall|a: usize, b: usize| !#[trigger] self.has_edge(a, b),
        ensures
            self.steps_along(seq![v]),
    {
    }

    /// A path grows by one step: where the edges of a complex are the steps
    /// of `path`, and the edge from its last vertex to a vertex `w` that it
    /// lacks is added, the edges are the steps of `path` with `w` at its end.
    pub proof fn lemma_path_grows(&self, after: SimplicialComplex, path: Seq<usize>, w: usize)
        requires
            self.steps_along(path),
            path.len() >= 1,
            !path.contains(w),
            has_edge_more(*self, after, path.last(), w),
        ensures
            after.steps_along(path.push(w)),
    {
        let longer = path.push(w);
        let last = path.len() - 1;
        assert(!self.has_edge(w, path.last())) by {
            if is_step(path, w, path.last()) {
                let i = choose|i: int| 0 <= i < path.len() - 1 && #[trigger] path[i] == w && path[i + 1] == path.last();
                assert(path.contains(w));
            }
        }
        assert forall|a: usize, b: usize| #[trigger] after.has_edge(a, b) <==> is_step(longer, a, b) by {
            if is_step(path, a, b) {
                let i = choose|i: int| 0 <= i < path.len() - 1 && #[trigger] path[i] == a && path[i + 1] == b;
                assert(longer[i] == a && longer[i + 1] == b);
            }
            if a == path.last() && b == w {
                assert(longer[last] == a && longer[last + 1] == b);
            }
            if is_step(longer, a, b) {
                let i = choose|i: int| 0 <= i < longer.len() - 1 && #[trigger] longer[i] == a && longer[i + 1] == b;
                if i < last {
                    assert(path[i] == a && path[i + 1] == b);
                }
            }
        }
    }

    /// The slot of the edge from `a` to `b`.
    pub open spec fn edge_slot(&self, a: usize, b: usize) -> int {
        choose|k: int| 0 <= k < self.count(1) && #[trigger] self.at(1, k) == edge(a, b)
    }

    /// A path holds no simplex of dimension 2 or more.
    pub proof fn lemma_path_is_flat(&self, path: Seq<usize>, d: int)
        requires
            self.is_path(path),
            d >= 2,
        ensures
            self.count(d) == 0,
        decreases d,
    {
        if self.count(d) > 0 {
            let t = self.at(d, 0);
            assert(self.level_wf(d));
            assert(t.len() == d + 1);
            assert(self.holds(d, t));
            if d == 2 {
                self.lemma_pairs_are_edges(t, 0, 1);
                self.lemma_pairs_are_edges(t, 1, 2);
                self.lemma_pairs_are_edges(t, 0, 2);
                assert(is_step(path, t[0], t[1]));
                assert(is_step(path, t[1], t[2]));
                assert(is_step(path, t[0], t[2]));
                let i = choose|i: int| 0 <= i < path.len() - 1 && #[trigger] path[i] == t[0] && path[i + 1] == t[1];
                let j = choose|j: int| 0 <= j < path.len() - 1 && #[trigger] path[j] == t[1] && path[j + 1] == t[2];
                let k = choose|k: int| 0 <= k < path.len() - 1 && #[trigger] path[k] == t[0] && path[k + 1] == t[2];
                assert(j == i + 1);
                assert(k == i);
                assert(path[k + 1] == path[j + 1]);
                assert(false);
            } else {
                assert(self.holds(d - 1, self.at(d, 0).remove(0)));
                self.lemma_path_is_flat(path, d - 1);
                assert(false);
            }
        }
    }

    /// Where the complex holds an edge and nothing of dimension 2 or more, it
    /// has two populated dimensions.
    proof fn lemma_populated_flat(&self, m: int)
        requires
            self.count(1) > 0,
            forall|d: int| d >= 2 ==> #[trigger] self.count(d) == 0,
            m >= 2,
        ensures
            self.populated_below(m) == 2,
        decreases m,
    {
        if m > 2 {
            assert(self.count(m - 1) == 0);
            self.lemma_populated_flat(m - 1);
        }
    }

    /// A path of `n + 1` vertices has `n` edges.
    pub proof fn lemma_path_edges(&self, path: Seq<usize>)
        requires
            self.is_path(path),
        ensures
            self.count(1) == path.len() - 1,
            self.levels() >= 2,
            forall|i: int|
                0 <= i < path.len() - 1 ==> 0 <= #[trigger] self.edge_slot(path[i], path[i + 1]) < self.count(1)
                    && self.at(1, self.edge_slot(path[i], path[i + 1])) == edge(path[i], path[i + 1]),
    {
        let n = path.len() - 1;
        assert forall|i: int| 0 <= i < n implies 0 <= #[trigger] self.edge_slot(path[i], path[i + 1]) < self.count(
            1,
        ) && self.at(1, self.edge_slot(path[i], path[i + 1])) == edge(path[i], path[i + 1]) by {
            assert(path[i] == path[i] && path[i + 1] == path[i + 1]);
            assert(is_step(path, path[i], path[i + 1]));
            assert(self.has_edge(path[i], path[i + 1]));
        }
        assert(self.count(1) > 0) by {
            let first = 0int;
            assert(path[first] == path[0] && path[first + 1] == path[1]);
            assert(is_step(path, path[0], path[1]));
            assert(self.has_edge(path[0], path[1]));
        }
        assert(self.level_wf(1));
        let steps = Seq::new(n as nat, |i: int| edge(path[i], path[i + 1]));
        let held = Seq::new(self.count(1) as nat, |k: int| self.at(1, k));
        assert(steps.no_duplicates()) by {
            assert forall|i: int, j: int| 0 <= i < steps.len() && 0 <= j < steps.len() && i != j implies steps[i]
                != steps[j] by {
                assert(steps[i][0] == path[i] && steps[j][0] == path[j]);
            }
        }
        assert(held.no_duplicates());
        steps.unique_seq_to_set();
        held.unique_seq_to_set();
        assert(steps.to_set() =~= held.to_set()) by {
            assert forall|s: Seq<usize>| steps.to_set().contains(s) <==> held.to_set().contains(s) by {
                if steps.to_set().contains(s) {
                    let i = choose|i: int| 0 <= i < steps.len() && steps[i] == s;
                    let k = self.edge_slot(path[i], path[i + 1]);
                    assert(held[k] == s);
                }
                if held.to_set().contains(s) {
                    let k = choose|k: int| 0 <= k < held.len() && held[k] == s;
                    assert(self.at(1, k) == s);
                    assert(s.len() == 2);
                    assert(s =~= edge(s[0], s[1]));
                    assert(self.has_edge(s[0], s[1]));
                    assert(is_step(path, s[0], s[1]));
                    let i = choose|i: int| 0 <= i < path.len() - 1 && #[trigger] path[i] == s[0] && path[i + 1] == s[1];
                    assert(steps[i] == s);
                }
            }
        }
    }

    /// A directed path has no holes: where the edges of a well-formed complex
    /// are the steps of one path, it has two populated dimensions and its one
    /// Betti number, that of the loops, is 0.
    pub proof fn lemma_path_has_no_holes(&self, path: Seq<usize>)
        requires
            self.is_path(path),
        ensures
            self.populated() == 2,
            forall|d: int| 0 <= d < self.populated() - 1 ==> #[trigger] self.betti(d) == 0,
    {
        let n = (path.len() - 1) as nat;
        self.lemma_path_edges(path);
        assert forall|d: int| d >= 2 implies #[trigger] self.count(d) == 0 by {
            self.lemma_path_is_flat(path, d);
        }
        self.lemma_populated_flat(self.levels());
        assert(self.level_wf(0));
        assert(self.level_wf(1));
        // the boundary matrix of the edges has no column: its rank is 0
        let upper = self.boundary_matrices@[1];
        let g1 = grid(upper);
        assert(has_shape(g1, upper.height(), 0));
        assert(is_binary_grid(g1, 0));
        lemma_rank_is_dimension(g1, upper.height(), 0);
        lemma_rank_from_bounds(g1, upper.height(), 0, 0);
        assert(self.boundary_rank(1) == 0);
        // the boundary matrix of the vertices has rank `n`
        let lower = self.boundary_matrices@[0];
        let h = lower.height();
        let g = grid(lower);
        assert(lower.width() == n);
        assert(has_shape(g, h, n));
        assert(is_binary_grid(g, n)) by {
            assert forall|i: int, j: int| 0 <= i < g.len() && 0 <= j < n implies (#[trigger] g[i][j]) <= 1 by {
                assert(g[i][j] == lower.at(i, j));
            }
        }
        lemma_rank_is_dimension(g, h, n);
        lemma_rank_from_bounds(g, h, n, 0);
        let p = bits(g, n);
        assert(all_wide(p, n));
        let order = Seq::new(n, |j: int| self.edge_slot(path[j], path[j + 1]));
        assert(is_permutation(order, n)) by {
            assert forall|i: int, j: int| 0 <= i < order.len() && 0 <= j < order.len() && i != j implies order[i]
                != order[j] by {
                assert(self.at(1, order[i]) == edge(path[i], path[i + 1]));
                assert(self.at(1, order[j]) == edge(path[j], path[j + 1]));
                assert(edge(path[i], path[i + 1])[0] == path[i]);
                assert(edge(path[j], path[j + 1])[0] == path[j]);
            }
        }
        lemma_rearranged(p, order, zero(n), n);
        let moved = all_rearranged(p, order);
        assert(all_wide(moved, n));
        assert forall|i: int| 0 <= i < n implies 0 <= #[trigger] self.vertex_slot(path[i]) < h && self.at(
            0,
            self.vertex_slot(path[i]),
        ) == point(path[i]) by {
            let k = self.edge_slot(path[i], path[i + 1]);
            assert(self.holds(1, self.at(1, k)));
            assert(edge(path[i], path[i + 1])[0] == path[i]);
            self.lemma_vertex_of_simplex(edge(path[i], path[i + 1]), 0);
        }
        let chosen = Seq::new(n, |i: int| moved[self.vertex_slot(path[i])]);
        assert(all_wide(chosen, n));
        assert forall|i: int, j: int| 0 <= i < n && 0 <= j < n implies (#[trigger] chosen[i][j]) == (i == j || i
            == j + 1) by {
            let row = self.vertex_slot(path[i]);
            let column = order[j];
            assert(chosen[i][j] == p[row][column]);
            assert(p[row][column] == (g[row][column] == 1));
            assert(g[row][column] == lower.at(row, column));
            assert(self.at(0, row) == point(path[i]));
            assert(self.at(1, column) == edge(path[j], path[j + 1]));
            lemma_ends_of_edge(path[i], path[j], path[j + 1]);
        }
        assert forall|i: int| 0 <= i < chosen.len() implies (#[trigger] chosen[i])[i] by {
            assert(chosen[i][i] == (i == i || i == i + 1));
        }
        assert forall|i: int, j: int| 0 <= i < j < chosen.len() implies !#[trigger] chosen[i][j] by {
            assert(chosen[i][j] == (i == j || i == j + 1));
        }
        lemma_rank_of_staircase(chosen, n, n as int);
        assert(chosen.subrange(0, n as int) =~= chosen);
        assert forall|i: int| 0 <= i < chosen.len() implies crate::span::in_span(moved, #[trigger] chosen[i]) by {
            lemma_row_in_span(moved, self.vertex_slot(path[i]), n);
        }
        lemma_rank_of_spanned(moved, chosen, n);
        assert(rk(p) == n);
        assert(self.boundary_rank(0) == n);
        assert(self.betti(0) == 0);
    }

    /// The complex of the directed path along `path`: its vertices, and an
    /// edge from each of them to the next, added one after the other. It has
    /// no holes.
    pub fn along(path: &Vec<usize>) -> (complex: SimplicialComplex)
        requires
            path@.no_duplicates(),
            path@.len() >= 1,
        ensures
            complex.wf(),
            complex.is_flag(),
            complex.steps_along(path@),
            forall|v: usize| #[trigger] complex.has_vertex(v) <==> path@.contains(v),
            forall|d: int| 0 <= d < complex.populated() - 1 ==> #[trigger] complex.betti(d) == 0,
    {
        let mut complex = SimplicialComplex::new(copy_of(path));
        proof {
            assert forall|a: usize, b: usize| !#[trigger] complex.has_edge(a, b) by {
                assert(edge(a, b).len() == 2);
                assert(!complex.has(edge(a, b)));
            }
            complex.lemma_path_starts(path@[0]);
            assert(path@.subrange(0, 1) =~= seq![path@[0]]);
        }
        let mut i: usize = 1;
        while i < path.len()
            invariant
                1 <= i <= path@.len(),
                path@.no_duplicates(),
                complex.wf(),
                complex.is_flag(),
                complex.steps_along(path@.subrange(0, i as int)),
                forall|v: usize| #[trigger] complex.has_vertex(v) <==> path@.contains(v),
            decreases path@.len() - i,
        {
            let ghost before = complex;
            let ghost walked = path@.subrange(0, i as int);
            let mut step: Vec<usize> = Vec::new();
            step.push(path[i - 1]);
            step.push(path[i]);
            complex.add(step);
            proof {
                assert(walked.last() == path@[i - 1]);
                assert(!walked.contains(path@[i as int])) by {
                    if walked.contains(path@[i as int]) {
                        let k = choose|k: int| 0 <= k < walked.len() && walked[k] == path@[i as int];
                        assert(path@[k] == path@[i as int]);
                    }
                }
                before.lemma_path_grows(complex, walked, path@[i as int]);
                assert(walked.push(path@[i as int]) =~= path@.subrange(0, i + 1));
                assert forall|v: usize| #[trigger] complex.has_vertex(v) <==> path@.contains(v) by {
                    assert(path@.contains(path@[i - 1]) && path@.contains(path@[i as int]));
                }
            }
            i += 1;
        }
        proof {
            assert(path@.subrange(0, i as int) =~= path@);
            if path@.len() >= 2 {
                complex.lemma_path_has_no_holes(path@);
            } else {
                assert forall|a: usize, b: usize| !#[trigger] complex.has_edge(a, b) by {
                    if is_step(path@, a, b) {
                    }
                }
                assert(complex.count(1) == 0) by {
                    if complex.count(1) > 0 {
                        assert(complex.level_wf(1));
                        let s = complex.at(1, 0);
                        assert(s =~= edge(s[0], s[1]));
                        assert(complex.has_edge(s[0], s[1]));
                    }
                }
                complex.lemma_few_populated();
            }
        }
        complex
    }

    /// A complex without edges has at most one populated dimension.
    pub proof fn lemma_few_populated(&self)
        requires
            self.wf(),
            self.count(1) == 0,
        ensures
            self.populated() <= 1,
    {
        assert forall|d: int| d >= 1 implies #[trigger] self.count(d) == 0 by {
            self.lemma_flat_above(d);
        }
        self.lemma_populated_low(self.levels());
    }

    /// Above an empty dimension every dimension is empty.
    proof fn lemma_flat_above(&self, d: int)
        requires
            self.wf(),
            self.count(1) == 0,
            d >= 1,
        ensures
            self.count(d) == 0,
        decreases d,
    {
        if d > 1 && self.count(d) > 0 {
            assert(self.level_wf(d));
            assert(self.holds(d - 1, self.at(d, 0).remove(0)));
            self.lemma_flat_above(d - 1);
        }
    }

    proof fn lemma_populated_low(&self, m: int)
        requires
            forall|d: int| d >= 1 ==> #[trigger] self.count(d) == 0,
            m >= 0,
        ensures
            self.populated_below(m) <= 1,
        decreases m,
    {
        if m > 1 {
            assert(self.count(m - 1) == 0);
            self.lemma_populated_low(m - 1);
        } else if m == 1 {
            assert(self.populated_below(0) == 0);
        }
    }
}

} // verus!
