//! What the elimination computes: the dimension of the span of the rows. It
//! follows that the rank stays when rows, or columns, change places.

use crate::rank::{
    cleared_below, cleared_right, columns_swapped, gf2_rank, has_one_from, has_shape, is_binary_grid,
    lemma_first_one_exists, pivot, rank_from, reduced, rows_swapped, with_column_added, with_row_added,
};
use crate::span::{
    all_moved, all_rearranged, all_wide, in_span, is_permutation, lemma_add_earlier, lemma_moved_span,
    lemma_permuted, lemma_rearranged, lemma_span_entry, lemma_span_push, lemma_swap, lemma_zero_in_span,
    permuted, rk, swapped, xor, zero,
};
use vstd::prelude::*;

verus! {

/// The rows of a grid of zeros and ones as vectors over the field with two
/// elements.
pub open spec fn bits(g: Seq<Seq<u64>>, w: nat) -> Seq<Seq<bool>> {
    Seq::new(g.len(), |i: int| Seq::new(w, |j: int| g[i][j] == 1))
}

/// The first `x` rows and the first `x` columns of the grid are done: they
/// hold a 1 on the diagonal and zeros elsewhere.
pub open spec fn is_reduced_to(g: Seq<Seq<u64>>, w: nat, x: int) -> bool {
    forall|i: int, j: int|
        0 <= i < g.len() && 0 <= j < w && (i < x || j < x) ==> (#[trigger] g[i][j]) == (if i == j {
            1u64
        } else {
            0u64
        })
}

/// Column `x` of the grid holds a 1 in row `x` and zeros elsewhere.
pub open spec fn has_unit_column(g: Seq<Seq<u64>>, x: int) -> bool {
    forall|i: int| 0 <= i < g.len() ==> (#[trigger] g[i])[x] == (if i == x {
        1u64
    } else {
        0u64
    })
}

proof fn lemma_bits_wide(g: Seq<Seq<u64>>, w: nat)
    ensures
        all_wide(bits(g, w), w),
        bits(g, w).len() == g.len(),
{
}

proof fn lemma_same_bits(p: Seq<Seq<bool>>, q: Seq<Seq<bool>>, w: nat)
    requires
        p.len() == q.len(),
        all_wide(p, w),
        all_wide(q, w),
        forall|i: int, j: int| 0 <= i < p.len() && 0 <= j < w ==> (#[trigger] p[i][j]) == q[i][j],
    ensures
        p == q,
{
    assert forall|i: int| 0 <= i < p.len() implies #[trigger] p[i] == q[i] by {
        assert(p[i] =~= q[i]);
    }
    assert(p =~= q);
}

/// Exchanging two rows of the grid leaves the rank of its rows as it is.
proof fn lemma_rows_swapped(g: Seq<Seq<u64>>, h: nat, w: nat, a: int, b: int)
    requires
        has_shape(g, h, w),
        0 <= a <= b < h,
    ensures
        rk(bits(rows_swapped(g, w, a, b), w)) == rk(bits(g, w)),
{
    let p = bits(g, w);
    lemma_bits_wide(g, w);
    lemma_bits_wide(rows_swapped(g, w, a, b), w);
    lemma_swap(p, a, b, w);
    assert(all_wide(swapped(p, a, b), w));
    lemma_same_bits(bits(rows_swapped(g, w, a, b), w), swapped(p, a, b), w);
}

/// Exchanging two columns of the grid leaves the rank of its rows as it is.
proof fn lemma_columns_swapped(g: Seq<Seq<u64>>, h: nat, w: nat, a: int, b: int)
    requires
        has_shape(g, h, w),
        0 <= a < w,
        0 <= b < w,
    ensures
        rk(bits(columns_swapped(g, w, a, b), w)) == rk(bits(g, w)),
{
    let p = bits(g, w);
    lemma_bits_wide(g, w);
    lemma_bits_wide(columns_swapped(g, w, a, b), w);
    if a == b {
        lemma_same_bits(bits(columns_swapped(g, w, a, b), w), p, w);
    } else {
        lemma_moved_span(true, a, b, p, zero(w), w);
        assert(all_wide(all_moved(true, a, b, p), w));
        lemma_same_bits(bits(columns_swapped(g, w, a, b), w), all_moved(true, a, b, p), w);
    }
}

/// Adding a row to a row below it leaves the rank of the rows as it is.
proof fn lemma_row_added(g: Seq<Seq<u64>>, h: nat, w: nat, src: int, dst: int)
    requires
        has_shape(g, h, w),
        is_binary_grid(g, w),
        0 <= src < dst < h,
    ensures
        rk(bits(with_row_added(g, w, src, dst), w)) == rk(bits(g, w)),
{
    let p = bits(g, w);
    lemma_bits_wide(g, w);
    lemma_bits_wide(with_row_added(g, w, src, dst), w);
    lemma_add_earlier(p, src, dst, w);
    let q = p.update(dst, xor(p[dst], p[src]));
    assert(all_wide(q, w));
    assert forall|i: int, j: int| 0 <= i < h && 0 <= j < w implies (#[trigger] bits(
        with_row_added(g, w, src, dst),
        w,
    )[i][j]) == q[i][j] by {
        assert(g[i][j] <= 1 && g[src][j] <= 1);
    }
    lemma_same_bits(bits(with_row_added(g, w, src, dst), w), q, w);
}

/// Adding a column to another leaves the rank of the rows as it is.
proof fn lemma_column_added(g: Seq<Seq<u64>>, h: nat, w: nat, src: int, dst: int)
    requires
        has_shape(g, h, w),
        is_binary_grid(g, w),
        0 <= src < w,
        0 <= dst < w,
        src != dst,
    ensures
        rk(bits(with_column_added(g, w, src, dst), w)) == rk(bits(g, w)),
{
    let p = bits(g, w);
    lemma_bits_wide(g, w);
    lemma_bits_wide(with_column_added(g, w, src, dst), w);
    lemma_moved_span(false, src, dst, p, zero(w), w);
    let q = all_moved(false, src, dst, p);
    assert(all_wide(q, w));
    assert forall|i: int, j: int| 0 <= i < h && 0 <= j < w implies (#[trigger] bits(
        with_column_added(g, w, src, dst),
        w,
    )[i][j]) == q[i][j] by {
        assert(g[i][j] <= 1 && g[i][src] <= 1);
    }
    lemma_same_bits(bits(with_column_added(g, w, src, dst), w), q, w);
}

/// Clearing column `x` below the diagonal keeps the shape, the rank and what
/// was done, leaves row `x` as it is, and leaves zeros in column `x` in the
/// rows below `x` that it has reached.
proof fn lemma_cleared_below(g: Seq<Seq<u64>>, h: nat, w: nat, x: int, k: int)
    requires
        has_shape(g, h, w),
        is_binary_grid(g, w),
        0 <= x < h,
        x < w,
        x < k <= h,
        is_reduced_to(g, w, x),
        g[x][x] == 1,
    ensures
        has_shape(cleared_below(g, w, x, k), h, w),
        is_binary_grid(cleared_below(g, w, x, k), w),
        is_reduced_to(cleared_below(g, w, x, k), w, x),
        rk(bits(cleared_below(g, w, x, k), w)) == rk(bits(g, w)),
        cleared_below(g, w, x, k)[x] == g[x],
        forall|i: int| x < i < k ==> (#[trigger] cleared_below(g, w, x, k)[i])[x] == 0,
    decreases k - x,
{
    if k > x + 1 {
        let before = cleared_below(g, w, x, k - 1);
        lemma_cleared_below(g, h, w, x, k - 1);
        if before[k - 1][x] == 1 {
            let after = with_row_added(before, w, x, k - 1);
            lemma_row_added(before, h, w, x, k - 1);
            assert(after[x] =~= before[x]);
            assert forall|i: int, j: int| 0 <= i < h && 0 <= j < w && (i < x || j < x) implies (#[trigger] after[i][j])
                == (if i == j {
                1u64
            } else {
                0u64
            }) by {
                assert(before[i][j] == (if i == j {
                    1u64
                } else {
                    0u64
                }));
                if i == k - 1 {
                    assert(before[x][j] == 0);
                }
            }
            assert forall|i: int| x < i < k implies (#[trigger] after[i])[x] == 0 by {
                if i < k - 1 {
                    assert(before[i][x] == 0);
                }
            }
        } else {
            assert(before[k - 1][x] <= 1);
        }
    }
}

/// Clearing row `x` right of the diagonal keeps the shape, the rank, what was
/// done and column `x`, and leaves zeros in row `x` in the columns right of
/// `x` that it has reached.
proof fn lemma_cleared_right(g: Seq<Seq<u64>>, h: nat, w: nat, x: int, k: int)
    requires
        has_shape(g, h, w),
        is_binary_grid(g, w),
        0 <= x < h,
        x < w,
        x < k <= w,
        is_reduced_to(g, w, x),
        has_unit_column(g, x),
    ensures
        has_shape(cleared_right(g, w, x, k), h, w),
        is_binary_grid(cleared_right(g, w, x, k), w),
        is_reduced_to(cleared_right(g, w, x, k), w, x),
        rk(bits(cleared_right(g, w, x, k), w)) == rk(bits(g, w)),
        has_unit_column(cleared_right(g, w, x, k), x),
        forall|j: int| x < j < k ==> (#[trigger] cleared_right(g, w, x, k)[x][j]) == 0,
    decreases k - x,
{
    if k > x + 1 {
        let before = cleared_right(g, w, x, k - 1);
        lemma_cleared_right(g, h, w, x, k - 1);
        if before[x][k - 1] == 1 {
            let after = with_column_added(before, w, x, k - 1);
            lemma_column_added(before, h, w, x, k - 1);
            assert forall|i: int, j: int| 0 <= i < h && 0 <= j < w && (i < x || j < x) implies (#[trigger] after[i][j])
                == (if i == j {
                1u64
            } else {
                0u64
            }) by {
                assert(before[i][j] == (if i == j {
                    1u64
                } else {
                    0u64
                }));
                assert(before[i][x] == (if i == x {
                    1u64
                } else {
                    0u64
                }));
            }
            assert forall|i: int| 0 <= i < h implies (#[trigger] after[i])[x] == (if i == x {
                1u64
            } else {
                0u64
            }) by {
                assert(before[i][x] == (if i == x {
                    1u64
                } else {
                    0u64
                }));
            }
            assert forall|j: int| x < j < k implies (#[trigger] after[x][j]) == 0 by {
                assert(before[x][x] == 1);
                if j < k - 1 {
                    assert(before[x][j] == 0);
                }
            }
        } else {
            assert(before[x][k - 1] <= 1);
        }
    }
}

/// One step of the elimination keeps the rank of the rows, and has row `x`
/// and column `x` done.
proof fn lemma_reduced(g: Seq<Seq<u64>>, h: nat, w: nat, x: int, i: int, j: int)
    requires
        has_shape(g, h, w),
        is_binary_grid(g, w),
        is_reduced_to(g, w, x),
        0 <= x <= i < h,
        x <= j < w,
        g[i][j] == 1,
    ensures
        has_shape(reduced(g, w, x, i, j), h, w),
        is_binary_grid(reduced(g, w, x, i, j), w),
        is_reduced_to(reduced(g, w, x, i, j), w, x + 1),
        rk(bits(reduced(g, w, x, i, j), w)) == rk(bits(g, w)),
{
    let s1 = rows_swapped(g, w, x, i);
    lemma_rows_swapped(g, h, w, x, i);
    assert(has_shape(s1, h, w));
    assert(is_binary_grid(s1, w));
    assert(is_reduced_to(s1, w, x)) by {
        assert forall|a: int, b: int| 0 <= a < h && 0 <= b < w && (a < x || b < x) implies (#[trigger] s1[a][b])
            == (if a == b {
            1u64
        } else {
            0u64
        }) by {
            let from = if a == x {
                i
            } else if a == i {
                x
            } else {
                a
            };
            assert(g[from][b] == (if from == b {
                1u64
            } else {
                0u64
            }));
        }
    }
    let s2 = columns_swapped(s1, w, x, j);
    lemma_columns_swapped(s1, h, w, x, j);
    assert(has_shape(s2, h, w));
    assert(is_binary_grid(s2, w));
    assert(is_reduced_to(s2, w, x)) by {
        assert forall|a: int, b: int| 0 <= a < h && 0 <= b < w && (a < x || b < x) implies (#[trigger] s2[a][b])
            == (if a == b {
            1u64
        } else {
            0u64
        }) by {
            let from = if b == x {
                j
            } else if b == j {
                x
            } else {
                b
            };
            assert(s1[a][from] == (if a == from {
                1u64
            } else {
                0u64
            }));
        }
    }
    assert(s2[x][x] == 1) by {
        assert(s1[x][j] == g[i][j]);
    }
    let s3 = cleared_below(s2, w, x, h as int);
    lemma_cleared_below(s2, h, w, x, h as int);
    assert(has_unit_column(s3, x)) by {
        assert forall|a: int| 0 <= a < h implies (#[trigger] s3[a])[x] == (if a == x {
            1u64
        } else {
            0u64
        }) by {
            if a < x {
                assert(s3[a][x] == 0);
            }
        }
    }
    let s4 = cleared_right(s3, w, x, w as int);
    lemma_cleared_right(s3, h, w, x, w as int);
    assert(s4 == reduced(g, w, x, i, j));
    assert forall|a: int, b: int| 0 <= a < h && 0 <= b < w && (a < x + 1 || b < x + 1) implies (#[trigger] s4[a][b])
        == (if a == b {
        1u64
    } else {
        0u64
    }) by {
        if a < x || b < x {
        } else if b == x {
            assert(s4[a][x] == (if a == x {
                1u64
            } else {
                0u64
            }));
        } else {
            assert(s4[x][b] == 0);
        }
    }
}

/// The first `n` rows of a grid that is nothing but `x` ones on its diagonal
/// have rank `n`, or `x` if that is less.
proof fn lemma_diagonal(g: Seq<Seq<u64>>, h: nat, w: nat, x: int, n: int)
    requires
        has_shape(g, h, w),
        0 <= x <= h,
        x <= w,
        0 <= n <= h,
        forall|i: int, j: int|
            0 <= i < h && 0 <= j < w ==> (#[trigger] g[i][j]) == (if i == j && i < x {
                1u64
            } else {
                0u64
            }),
    ensures
        rk(bits(g, w).subrange(0, n)) == (if n < x {
            n
        } else {
            x
        }),
    decreases n,
{
    let p = bits(g, w);
    if n > 0 {
        lemma_diagonal(g, h, w, x, n - 1);
        let head = p.subrange(0, n - 1);
        let row = p[n - 1];
        assert(p.subrange(0, n) =~= head.push(row));
        lemma_span_push(head, row, row);
        assert(all_wide(head, w));
        if n - 1 < x {
            assert forall|i: int| 0 <= i < head.len() implies !(#[trigger] head[i])[n - 1] by {
                assert(head[i] == p[i]);
                assert(g[i][n - 1] == 0);
            }
            assert(g[n - 1][n - 1] == 1);
            assert(row[n - 1]);
            if in_span(head, row) {
                lemma_span_entry(head, row, n - 1, w);
            }
        } else {
            assert(row =~= zero(w)) by {
                assert forall|j: int| 0 <= j < w implies row[j] == false by {
                    assert(g[n - 1][j] == 0);
                }
            }
            lemma_zero_in_span(head, w);
        }
    } else {
        assert(p.subrange(0, 0) =~= Seq::<Seq<bool>>::empty());
    }
}

/// From any step on, the elimination finds as many pivots as the rank of the
/// rows exceeds the number of steps done.
proof fn lemma_rank_from(g: Seq<Seq<u64>>, h: nat, w: nat, x: int)
    requires
        has_shape(g, h, w),
        is_binary_grid(g, w),
        0 <= x <= h,
        x <= w,
        is_reduced_to(g, w, x),
    ensures
        rk(bits(g, w)) == x + rank_from(g, w, x),
    decreases w - x,
{
    if x < h && x < w && has_one_from(g, w, x) {
        let (i, j) = choose|i: int, j: int| x <= i < g.len() && x <= j < w && (#[trigger] g[i][j]) == 1;
        lemma_first_one_exists(g, w, x, i, j);
        let p = pivot(g, w, x);
        lemma_reduced(g, h, w, x, p.0, p.1);
        lemma_rank_from(reduced(g, w, x, p.0, p.1), h, w, x + 1);
    } else {
        assert forall|i: int, j: int| 0 <= i < h && 0 <= j < w implies (#[trigger] g[i][j]) == (if i == j && i
            < x {
            1u64
        } else {
            0u64
        }) by {
            if i >= x && j >= x {
                assert(g[i][j] <= 1);
                assert(!has_one_from(g, w, x));
            }
        }
        lemma_diagonal(g, h, w, x, h as int);
        assert(bits(g, w).subrange(0, h as int) =~= bits(g, w));
    }
}

/// The rank that the elimination finds is the rank of the rows: the
/// dimension of their span over the field with two elements.
pub proof fn lemma_rank_is_dimension(g: Seq<Seq<u64>>, h: nat, w: nat)
    requires
        has_shape(g, h, w),
        is_binary_grid(g, w),
    ensures
        gf2_rank(g, w) == rk(bits(g, w)),
{
    lemma_rank_from(g, h, w, 0);
}

/// The rank stays when two rows change places.
pub proof fn lemma_rank_rows_exchanged(g: Seq<Seq<u64>>, h: nat, w: nat, a: int, b: int)
    requires
        has_shape(g, h, w),
        is_binary_grid(g, w),
        0 <= a < h,
        0 <= b < h,
    ensures
        gf2_rank(rows_swapped(g, w, a, b), w) == gf2_rank(g, w),
{
    let s = rows_swapped(g, w, a, b);
    assert(has_shape(s, h, w));
    assert(is_binary_grid(s, w));
    lemma_rank_is_dimension(g, h, w);
    lemma_rank_is_dimension(s, h, w);
    if a <= b {
        lemma_rows_swapped(g, h, w, a, b);
    } else {
        lemma_rows_swapped(g, h, w, b, a);
        assert(rows_swapped(g, w, b, a) =~~= s);
    }
}

/// The rank stays when two columns change places.
pub proof fn lemma_rank_columns_exchanged(g: Seq<Seq<u64>>, h: nat, w: nat, a: int, b: int)
    requires
        has_shape(g, h, w),
        is_binary_grid(g, w),
        0 <= a < w,
        0 <= b < w,
    ensures
        gf2_rank(columns_swapped(g, w, a, b), w) == gf2_rank(g, w),
{
    let s = columns_swapped(g, w, a, b);
    assert(has_shape(s, h, w));
    assert(is_binary_grid(s, w));
    lemma_rank_is_dimension(g, h, w);
    lemma_rank_is_dimension(s, h, w);
    lemma_columns_swapped(g, h, w, a, b);
}

/// The grid with its rows in the order that `perm` gives: row `i` holds what
/// was row `perm[i]`.
pub open spec fn rows_permuted(g: Seq<Seq<u64>>, w: nat, perm: Seq<int>) -> Seq<Seq<u64>> {
    Seq::new(perm.len(), |i: int| Seq::new(w, |j: int| g[perm[i]][j]))
}

/// The grid with its columns in the order that `perm` gives: column `j` holds
/// what was column `perm[j]`.
pub open spec fn columns_permuted(g: Seq<Seq<u64>>, perm: Seq<int>) -> Seq<Seq<u64>> {
    Seq::new(g.len(), |i: int| Seq::new(perm.len(), |j: int| g[i][perm[j]]))
}

/// The rank is the same for every order of the rows.
pub proof fn lemma_rank_rows_permuted(g: Seq<Seq<u64>>, h: nat, w: nat, perm: Seq<int>)
    requires
        has_shape(g, h, w),
        is_binary_grid(g, w),
        is_permutation(perm, h),
    ensures
        gf2_rank(rows_permuted(g, w, perm), w) == gf2_rank(g, w),
{
    let s = rows_permuted(g, w, perm);
    assert(has_shape(s, h, w));
    assert(is_binary_grid(s, w)) by {
        assert forall|i: int, j: int| 0 <= i < s.len() && 0 <= j < w implies (#[trigger] s[i][j]) <= 1 by {
            assert(0 <= perm[i] < h);
            assert(g[perm[i]][j] <= 1);
        }
    }
    lemma_rank_is_dimension(g, h, w);
    lemma_rank_is_dimension(s, h, w);
    let p = bits(g, w);
    lemma_bits_wide(g, w);
    lemma_bits_wide(s, w);
    lemma_permuted(p, perm, w);
    assert(all_wide(permuted(p, perm), w)) by {
        assert forall|i: int| 0 <= i < permuted(p, perm).len() implies (#[trigger] permuted(p, perm)[i]).len()
            == w by {
            assert(0 <= perm[i] < h);
        }
    }
    assert forall|i: int, j: int| 0 <= i < h && 0 <= j < w implies (#[trigger] bits(s, w)[i][j]) == permuted(
        p,
        perm,
    )[i][j] by {
        assert(0 <= perm[i] < h);
    }
    lemma_same_bits(bits(s, w), permuted(p, perm), w);
}

/// The rank is the same for every order of the columns.
pub proof fn lemma_rank_columns_permuted(g: Seq<Seq<u64>>, h: nat, w: nat, perm: Seq<int>)
    requires
        has_shape(g, h, w),
        is_binary_grid(g, w),
        is_permutation(perm, w),
    ensures
        gf2_rank(columns_permuted(g, perm), w) == gf2_rank(g, w),
{
    let s = columns_permuted(g, perm);
    assert(has_shape(s, h, w));
    assert(is_binary_grid(s, w)) by {
        assert forall|i: int, j: int| 0 <= i < s.len() && 0 <= j < w implies (#[trigger] s[i][j]) <= 1 by {
            assert(0 <= perm[j] < w);
            assert(g[i][perm[j]] <= 1);
        }
    }
    lemma_rank_is_dimension(g, h, w);
    lemma_rank_is_dimension(s, h, w);
    let p = bits(g, w);
    lemma_bits_wide(g, w);
    lemma_bits_wide(s, w);
    lemma_rearranged(p, perm, zero(w), w);
    assert(all_wide(all_rearranged(p, perm), w));
    assert forall|i: int, j: int| 0 <= i < h && 0 <= j < w implies (#[trigger] bits(s, w)[i][j])
        == all_rearranged(p, perm)[i][j] by {
        assert(0 <= perm[j] < w);
    }
    lemma_same_bits(bits(s, w), all_rearranged(p, perm), w);
}

} // verus!
