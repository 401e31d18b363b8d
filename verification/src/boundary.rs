//! The boundary of a boundary is empty: each row of a boundary matrix lists
//! coefficients with which the rows of the next boundary matrix sum to zero.
//! It follows that no Betti number is negative.

use crate::chain::{all_cancel, combo, lemma_combo_in_span, lemma_rank_without_entries, lemma_room_for_rank};
use crate::closure::lemma_remove_twice;
use crate::complex::SimplicialComplex;
use crate::matrix::grid;
use crate::rank_laws::bits;
use crate::simplex::{is_facet, is_facet_at, lemma_remove_distinct};
use crate::span::{all_wide, zero};
use vstd::prelude::*;

verus! {

/// The vector at position `k` has coefficient 1 and a 1 at entry `j`.
pub open spec fn counts_at(p: Seq<Seq<bool>>, c: Seq<bool>, j: int, k: int) -> bool {
    c[k] && p[k][j]
}

/// Where exactly the vectors at positions `ka` and `kb` have, with
/// coefficient 1, a 1 at entry `j`, the sum of the first `t` vectors has a 1
/// there exactly if one of the two, and not the other, is among them.
pub proof fn lemma_entry_of_two(p: Seq<Seq<bool>>, c: Seq<bool>, w: nat, j: int, ka: int, kb: int, t: int)
    requires
        all_wide(p, w),
        c.len() == p.len(),
        0 <= j < w,
        0 <= ka < kb < p.len(),
        forall|k: int| 0 <= k < p.len() ==> (#[trigger] counts_at(p, c, j, k) <==> (k == ka || k == kb)),
        0 <= t <= p.len(),
    ensures
        combo(p.subrange(0, t), c.subrange(0, t), w)[j] == (ka < t && !(kb < t)),
    decreases t,
{
    if t == 0 {
        assert(p.subrange(0, 0).len() == 0);
    } else {
        lemma_entry_of_two(p, c, w, j, ka, kb, t - 1);
        let pt = p.subrange(0, t);
        let ct = c.subrange(0, t);
        assert(pt.drop_last() =~= p.subrange(0, t - 1));
        assert(ct.drop_last() =~= c.subrange(0, t - 1));
        assert(pt.last() == p[t - 1] && ct.last() == c[t - 1]);
        assert(all_wide(p.subrange(0, t - 1), w));
        lemma_combo_in_span(p.subrange(0, t - 1), c.subrange(0, t - 1), w);
        assert(counts_at(p, c, j, t - 1) <==> (t - 1 == ka || t - 1 == kb));
    }
}

/// Where no vector has, with coefficient 1, a 1 at entry `j`, no sum of the
/// first `t` vectors has one there.
pub proof fn lemma_entry_of_none(p: Seq<Seq<bool>>, c: Seq<bool>, w: nat, j: int, t: int)
    requires
        all_wide(p, w),
        c.len() == p.len(),
        0 <= j < w,
        forall|k: int| 0 <= k < p.len() ==> !#[trigger] counts_at(p, c, j, k),
        0 <= t <= p.len(),
    ensures
        !combo(p.subrange(0, t), c.subrange(0, t), w)[j],
    decreases t,
{
    if t == 0 {
        assert(p.subrange(0, 0).len() == 0);
    } else {
        lemma_entry_of_none(p, c, w, j, t - 1);
        let pt = p.subrange(0, t);
        let ct = c.subrange(0, t);
        assert(pt.drop_last() =~= p.subrange(0, t - 1));
        assert(ct.drop_last() =~= c.subrange(0, t - 1));
        assert(pt.last() == p[t - 1] && ct.last() == c[t - 1]);
        assert(all_wide(p.subrange(0, t - 1), w));
        lemma_combo_in_span(p.subrange(0, t - 1), c.subrange(0, t - 1), w);
        assert(!counts_at(p, c, j, t - 1));
    }
}

/// A facet of a facet of `t` is `t` without two of its vertices, and the
/// other way to take the two out passes through another facet of `t`.
pub proof fn lemma_two_ways(t: Seq<usize>, p: int, q: int) -> (r: (int, int))
    requires
        0 <= p < t.len(),
        0 <= q < t.len() - 1,
    ensures
        0 <= r.0 < r.1 < t.len(),
        r.0 == p || r.1 == p,
        t.remove(r.0).remove(r.1 - 1) == t.remove(p).remove(q),
        t.remove(r.1).remove(r.0) == t.remove(p).remove(q),
{
    if q < p {
        lemma_remove_twice(t, q, p);
        (q, p)
    } else {
        lemma_remove_twice(t, p, q + 1);
        (p, q + 1)
    }
}

impl SimplicialComplex {
    /// The boundary matrix of dimension `e` as vectors over the field with
    /// two elements, one for each simplex of dimension `e`.
    pub open spec fn boundary_rows(&self, e: int) -> Seq<Seq<bool>> {
        bits(grid(self.boundary_matrices@[e]), self.boundary_matrices@[e].width())
    }

    /// An entry of the boundary rows is 1 exactly where the row's simplex is
    /// a facet of the column's.
    pub proof fn lemma_boundary_bit(&self, e: int, i: int, k: int)
        requires
            self.wf(),
            0 <= e < self.levels(),
            0 <= i < self.count(e),
            0 <= k < self.count(e + 1),
        ensures
            self.boundary_rows(e).len() == self.count(e),
            all_wide(self.boundary_rows(e), self.count(e + 1) as nat),
            self.boundary_rows(e)[i][k] == is_facet(self.at(e, i), self.at(e + 1, k)),
    {
        assert(self.level_wf(e));
        let m = self.boundary_matrices@[e];
        assert(grid(m)[i][k] == m.at(i, k));
    }

    /// The boundary of a boundary is empty: with the coefficients that a
    /// simplex of dimension `d` has in its row of the boundary matrix, the
    /// rows of the next boundary matrix sum to zero.
    pub proof fn lemma_boundary_of_boundary(&self, d: int, i: int)
        requires
            self.wf(),
            0 <= d,
            d + 1 < self.levels(),
            0 <= i < self.count(d),
        ensures
            combo(self.boundary_rows(d + 1), self.boundary_rows(d)[i], self.count(d + 2) as nat) == zero(
                self.count(d + 2) as nat,
            ),
    {
        let n = self.count(d + 1);
        let w = self.count(d + 2) as nat;
        let p = self.boundary_rows(d + 1);
        let c = self.boundary_rows(d)[i];
        assert(self.level_wf(d));
        assert(self.level_wf(d + 1));
        assert(p.len() == n);
        assert(all_wide(p, w));
        assert(c.len() == n);
        lemma_combo_in_span(p, c, w);
        let sum = combo(p, c, w);
        let f = self.at(d, i);
        assert forall|j: int| 0 <= j < w implies sum[j] == false by {
            assert(self.level_wf(d + 2));
            let t = self.at(d + 2, j);
            assert(t.len() == d + 3 && t.no_duplicates());
            assert forall|k: int| 0 <= k < n implies (#[trigger] counts_at(p, c, j, k) <==> (is_facet(
                f,
                self.at(d + 1, k),
            ) && is_facet(self.at(d + 1, k), t))) by {
                self.lemma_boundary_bit(d, i, k);
                self.lemma_boundary_bit(d + 1, k, j);
            }
            assert(p.subrange(0, n) =~= p);
            assert(c.subrange(0, n) =~= c);
            if exists|k: int| 0 <= k < n && #[trigger] counts_at(p, c, j, k) {
                let k0 = choose|k: int| 0 <= k < n && #[trigger] counts_at(p, c, j, k);
                let s = self.at(d + 1, k0);
                let pp = choose|pp: int| is_facet_at(s, t, pp);
                let qq = choose|qq: int| is_facet_at(f, s, qq);
                let (a, b) = lemma_two_ways(t, pp, qq);
                let sa = t.remove(a);
                let sb = t.remove(b);
                assert(self.holds(d + 1, self.at(d + 2, j).remove(a)));
                assert(self.holds(d + 1, self.at(d + 2, j).remove(b)));
                let ka = choose|k: int| 0 <= k < n && #[trigger] self.at(d + 1, k) == sa;
                let kb = choose|k: int| 0 <= k < n && #[trigger] self.at(d + 1, k) == sb;
                assert(sa != sb) by {
                    assert(sa[a] == t[a + 1]);
                    assert(sb[a] == t[a]);
                }
                assert(ka != kb);
                assert(is_facet_at(f, sa, b - 1));
                assert(is_facet_at(f, sb, a));
                assert(is_facet_at(sa, t, a) && is_facet_at(sb, t, b));
                // the vertices of `f` are those of `t` but the two at `a` and `b`
                lemma_remove_distinct(t, a);
                lemma_remove_distinct(sa, b - 1);
                assert(sa[b - 1] == t[b]);
                assert forall|k: int| 0 <= k < n implies (#[trigger] counts_at(p, c, j, k) <==> (k == ka || k
                    == kb)) by {
                    let sk = self.at(d + 1, k);
                    if is_facet(f, sk) && is_facet(sk, t) {
                        let pk = choose|pk: int| is_facet_at(sk, t, pk);
                        let qk = choose|qk: int| is_facet_at(f, sk, qk);
                        lemma_remove_distinct(t, pk);
                        lemma_remove_distinct(sk, qk);
                        assert(sk.no_duplicates());
                        // the vertex of `t` at `pk` is no vertex of `f`
                        assert(!f.contains(t[pk])) by {
                            if f.contains(t[pk]) {
                                assert(sk.contains(t[pk]));
                            }
                        }
                        assert(t.contains(t[pk]));
                        if pk != a && pk != b {
                            assert(sa.contains(t[pk]));
                            assert(f.contains(t[pk]));
                        }
                        if pk == a {
                            assert(sk == sa);
                        } else {
                            assert(sk == sb);
                        }
                    }
                    if k == ka {
                        assert(is_facet(f, sa) && is_facet(sa, t));
                    }
                    if k == kb {
                        assert(is_facet(f, sb) && is_facet(sb, t));
                    }
                }
                if ka < kb {
                    lemma_entry_of_two(p, c, w, j, ka, kb, n);
                } else {
                    lemma_entry_of_two(p, c, w, j, kb, ka, n);
                }
            } else {
                lemma_entry_of_none(p, c, w, j, n);
            }
        }
        assert(sum =~= zero(w));
    }

    /// No Betti number is negative: the rank of a boundary matrix is at most
    /// the dimension of the kernel of the one before it.
    pub proof fn lemma_betti_not_negative(&self, d: int)
        requires
            self.wf(),
            0 <= d,
        ensures
            self.betti(d) >= 0,
    {
        if d + 1 < self.levels() {
            let p = self.boundary_rows(d + 1);
            let q = self.boundary_rows(d);
            let w = self.count(d + 2) as nat;
            assert(self.level_wf(d));
            assert(self.level_wf(d + 1));
            assert(all_wide(p, w));
            assert(p.len() == self.count(d + 1));
            assert(all_wide(q, p.len()));
            assert(all_cancel(p, q, w)) by {
                assert forall|i: int| 0 <= i < q.len() implies combo(p, #[trigger] q[i], w) == zero(w) by {
                    self.lemma_boundary_of_boundary(d, i);
                }
            }
            lemma_room_for_rank(p, q, w);
        } else if d < self.levels() {
            assert(self.level_wf(d));
            lemma_rank_without_entries(self.boundary_rows(d));
        }
    }
}

} // verus!
