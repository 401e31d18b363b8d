//! The rank engine: the rank of a matrix over the field with two elements, by
//! elimination with row and column pivoting on a scratch copy.

use crate::matrix::{
    clone_matrix, entry, grid, ncols, nrows, set_entry, swap_columns, swap_rows, BoundaryMatrix,
};
use crate::rank_laws::{bits, lemma_rank_is_dimension};
use crate::span::rk;
use vstd::prelude::*;

verus! {

/// Every entry of the grid, `w` columns wide, is 0 or 1.
pub open spec fn is_binary_grid(g: Seq<Seq<u64>>, w: nat) -> bool {
    forall|i: int, j: int| 0 <= i < g.len() && 0 <= j < w ==> (#[trigger] g[i][j]) <= 1
}

/// The grid is `h` rows high and each row holds `w` entries.
pub open spec fn has_shape(g: Seq<Seq<u64>>, h: nat, w: nat) -> bool {
    g.len() == h && forall|i: int| 0 <= i < h ==> (#[trigger] g[i]).len() == w
}

/// The grid with rows `a` and `b` exchanged.
pub open spec fn rows_swapped(g: Seq<Seq<u64>>, w: nat, a: int, b: int) -> Seq<Seq<u64>> {
    Seq::new(
        g.len(),
        |i: int|
            Seq::new(
                w,
                |j: int|
                    g[if i == a {
                        b
                    } else if i == b {
                        a
                    } else {
                        i
                    }][j],
            ),
    )
}

/// The grid with columns `a` and `b` exchanged.
pub open spec fn columns_swapped(g: Seq<Seq<u64>>, w: nat, a: int, b: int) -> Seq<Seq<u64>> {
    Seq::new(
        g.len(),
        |i: int|
            Seq::new(
                w,
                |j: int|
                    g[i][if j == a {
                        b
                    } else if j == b {
                        a
                    } else {
                        j
                    }],
            ),
    )
}

/// The grid after row `src` is added, modulo 2, to row `dst`.
pub open spec fn with_row_added(g: Seq<Seq<u64>>, w: nat, src: int, dst: int) -> Seq<Seq<u64>> {
    Seq::new(
        g.len(),
        |i: int|
            Seq::new(
                w,
                |j: int|
                    if i == dst {
                        ((g[i][j] + g[src][j]) % 2) as u64
                    } else {
                        g[i][j]
                    },
            ),
    )
}

/// The grid after column `src` is added, modulo 2, to column `dst`.
pub open spec fn with_column_added(g: Seq<Seq<u64>>, w: nat, src: int, dst: int) -> Seq<Seq<u64>> {
    Seq::new(
        g.len(),
        |i: int|
            Seq::new(
                w,
                |j: int|
                    if j == dst {
                        ((g[i][j] + g[i][src]) % 2) as u64
                    } else {
                        g[i][j]
                    },
            ),
    )
}

/// `(i, j)` is the first cell, row by row, of the block below and right of
/// `(x, x)` that holds a 1.
pub open spec fn is_first_one(g: Seq<Seq<u64>>, w: nat, x: int, i: int, j: int) -> bool {
    &&& x <= i < g.len()
    &&& x <= j < w
    &&& g[i][j] == 1
    &&& forall|a: int, b: int|
        x <= a < g.len() && x <= b < w && (a < i || (a == i && b < j)) ==> (#[trigger] g[a][b]) != 1
}

/// The block below and right of `(x, x)` holds a 1 somewhere.
pub open spec fn has_one_from(g: Seq<Seq<u64>>, w: nat, x: int) -> bool {
    exists|i: int, j: int| x <= i < g.len() && x <= j < w && (#[trigger] g[i][j]) == 1
}

/// The pivot of step `x`: the first cell of the block below and right of
/// `(x, x)` that holds a 1.
pub open spec fn pivot(g: Seq<Seq<u64>>, w: nat, x: int) -> (int, int) {
    choose|p: (int, int)| is_first_one(g, w, x, p.0, p.1)
}

/// The grid after each of the rows `x + 1 .. k` that held a 1 in column `x`
/// had row `x` added to it.
pub open spec fn cleared_below(g: Seq<Seq<u64>>, w: nat, x: int, k: int) -> Seq<Seq<u64>>
    decreases k - x,
{
    if k <= x + 1 {
        g
    } else {
        let h = cleared_below(g, w, x, k - 1);
        if h[k - 1][x] == 1 {
            with_row_added(h, w, x, k - 1)
        } else {
            h
        }
    }
}

/// The grid after each of the columns `x + 1 .. k` that held a 1 in row `x`
/// had column `x` added to it.
pub open spec fn cleared_right(g: Seq<Seq<u64>>, w: nat, x: int, k: int) -> Seq<Seq<u64>>
    decreases k - x,
{
    if k <= x + 1 {
        g
    } else {
        let h = cleared_right(g, w, x, k - 1);
        if h[x][k - 1] == 1 {
            with_column_added(h, w, x, k - 1)
        } else {
            h
        }
    }
}

/// One step of the elimination: the 1 at `(i, j)` is brought to `(x, x)` by a
/// row swap and a column swap, and then every other 1 in column `x` below it
/// and in row `x` right of it is cancelled.
pub open spec fn reduced(g: Seq<Seq<u64>>, w: nat, x: int, i: int, j: int) -> Seq<Seq<u64>> {
    let swapped = columns_swapped(rows_swapped(g, w, x, i), w, x, j);
    cleared_right(cleared_below(swapped, w, x, g.len() as int), w, x, w as int)
}

/// The number of pivots that the elimination finds from step `x` on.
pub open spec fn rank_from(g: Seq<Seq<u64>>, w: nat, x: int) -> nat
    decreases w - x,
{
    if x < 0 || x >= g.len() || x >= w || !has_one_from(g, w, x) {
        0
    } else {
        let p = pivot(g, w, x);
        1 + rank_from(reduced(g, w, x, p.0, p.1), w, x + 1)
    }
}

/// The rank over the field with two elements of a grid of zeros and ones, `w`
/// columns wide: the number of pivots that elimination with full pivoting
/// finds. At each step it takes the first 1, row by row, of the block that is
/// left; where the block holds no 1, it stops.
pub open spec fn gf2_rank(g: Seq<Seq<u64>>, w: nat) -> nat {
    rank_from(g, w, 0)
}

proof fn lemma_same_grid(a: Seq<Seq<u64>>, b: Seq<Seq<u64>>, h: nat, w: nat)
    requires
        has_shape(a, h, w),
        has_shape(b, h, w),
        forall|i: int, j: int| 0 <= i < h && 0 <= j < w ==> (#[trigger] a[i][j]) == b[i][j],
    ensures
        a == b,
{
    assert forall|i: int| 0 <= i < h implies #[trigger] a[i] == b[i] by {
        assert(a[i] =~= b[i]);
    }
    assert(a =~= b);
}

proof fn lemma_cleared_below_shape(g: Seq<Seq<u64>>, h: nat, w: nat, x: int, k: int)
    requires
        has_shape(g, h, w),
        is_binary_grid(g, w),
        0 <= x < h,
        x < w,
        k <= h,
    ensures
        has_shape(cleared_below(g, w, x, k), h, w),
        is_binary_grid(cleared_below(g, w, x, k), w),
    decreases k - x,
{
    if k > x + 1 {
        lemma_cleared_below_shape(g, h, w, x, k - 1);
    }
}

proof fn lemma_cleared_right_shape(g: Seq<Seq<u64>>, h: nat, w: nat, x: int, k: int)
    requires
        has_shape(g, h, w),
        is_binary_grid(g, w),
        0 <= x < h,
        x < w,
        k <= w,
    ensures
        has_shape(cleared_right(g, w, x, k), h, w),
        is_binary_grid(cleared_right(g, w, x, k), w),
    decreases k - x,
{
    if k > x + 1 {
        lemma_cleared_right_shape(g, h, w, x, k - 1);
    }
}

proof fn lemma_reduced_shape(g: Seq<Seq<u64>>, h: nat, w: nat, x: int, i: int, j: int)
    requires
        has_shape(g, h, w),
        is_binary_grid(g, w),
        0 <= x <= i < h,
        x <= j < w,
    ensures
        has_shape(reduced(g, w, x, i, j), h, w),
        is_binary_grid(reduced(g, w, x, i, j), w),
{
    let swapped = columns_swapped(rows_swapped(g, w, x, i), w, x, j);
    assert(has_shape(swapped, h, w));
    assert(is_binary_grid(swapped, w));
    lemma_cleared_below_shape(swapped, h, w, x, h as int);
    lemma_cleared_right_shape(cleared_below(swapped, w, x, h as int), h, w, x, w as int);
}

proof fn lemma_pivot_is_first(g: Seq<Seq<u64>>, w: nat, x: int, i: int, j: int)
    requires
        is_first_one(g, w, x, i, j),
    ensures
        has_one_from(g, w, x),
        pivot(g, w, x) == (i, j),
{
    let p = pivot(g, w, x);
    assert(is_first_one(g, w, x, (i, j).0, (i, j).1));
    assert(is_first_one(g, w, x, p.0, p.1));
    if p.0 < i || (p.0 == i && p.1 < j) {
        assert(g[p.0][p.1] != 1);
    }
    if i < p.0 || (i == p.0 && j < p.1) {
        assert(g[i][j] != 1);
    }
}

/// The rank is at most the number of rows and at most the number of columns
/// that are left at step `x`.
pub proof fn lemma_rank_from_bounds(g: Seq<Seq<u64>>, h: nat, w: nat, x: int)
    requires
        has_shape(g, h, w),
        is_binary_grid(g, w),
        0 <= x,
    ensures
        x <= h ==> rank_from(g, w, x) <= h - x,
        x <= w ==> rank_from(g, w, x) <= w - x,
    decreases w - x,
{
    if x < h && x < w && has_one_from(g, w, x) {
        let (i, j) = choose|i: int, j: int| x <= i < g.len() && x <= j < w && (#[trigger] g[i][j]) == 1;
        lemma_first_one_exists(g, w, x, i, j);
        let p = pivot(g, w, x);
        lemma_reduced_shape(g, h, w, x, p.0, p.1);
        lemma_rank_from_bounds(reduced(g, w, x, p.0, p.1), h, w, x + 1);
    }
}

/// Where the block below and right of `(x, x)` holds a 1, it has a first one.
pub proof fn lemma_first_one_exists(g: Seq<Seq<u64>>, w: nat, x: int, i: int, j: int)
    requires
        x <= i < g.len(),
        x <= j < w,
        g[i][j] == 1,
    ensures
        is_first_one(g, w, x, pivot(g, w, x).0, pivot(g, w, x).1),
    decreases i - x, j - x,
{
    if exists|a: int, b: int|
        x <= a < g.len() && x <= b < w && (a < i || (a == i && b < j)) && (#[trigger] g[a][b]) == 1 {
        let (a, b) = choose|a: int, b: int|
            x <= a < g.len() && x <= b < w && (a < i || (a == i && b < j)) && (#[trigger] g[a][b])
                == 1;
        lemma_first_one_exists(g, w, x, a, b);
    } else {
        assert(is_first_one(g, w, x, (i, j).0, (i, j).1));
    }
}

/// The first cell of the block below and right of `(x, x)` that holds a 1.
fn find_pivot(m: &BoundaryMatrix, x: usize) -> (found: Option<(usize, usize)>)
    ensures
        match found {
            Some(p) => is_first_one(grid(*m), m.width(), x as int, p.0 as int, p.1 as int),
            None => !has_one_from(grid(*m), m.width(), x as int),
        },
{
    let h = nrows(m);
    let w = ncols(m);
    let ghost g = grid(*m);
    let mut i: usize = x;
    while i < h
        invariant
            h == m.height(),
            w == m.width(),
            g == grid(*m),
            x <= i,
            forall|a: int, b: int| x <= a < i && a < h && x <= b < w ==> (#[trigger] g[a][b]) != 1,
        decreases h - i,
    {
        let mut j: usize = x;
        while j < w
            invariant
                h == m.height(),
                w == m.width(),
                g == grid(*m),
                x <= i < h,
                x <= j,
                forall|a: int, b: int| x <= a < i && x <= b < w ==> (#[trigger] g[a][b]) != 1,
                forall|b: int| x <= b < j && b < w ==> (#[trigger] g[i as int][b]) != 1,
            decreases w - j,
        {
            if entry(m, i, j) == 1 {
                assert(g[i as int][j as int] == 1);
                return Some((i, j));
            }
            j += 1;
        }
        i += 1;
    }
    None
}

/// Adds row `src`, modulo 2, to row `dst`.
fn cancel_in_row(m: &mut BoundaryMatrix, src: usize, dst: usize)
    requires
        src != dst,
        src < old(m).height(),
        dst < old(m).height(),
        old(m).is_binary(),
    ensures
        final(m).height() == old(m).height(),
        final(m).width() == old(m).width(),
        final(m).is_binary(),
        grid(*final(m)) == with_row_added(grid(*old(m)), old(m).width(), src as int, dst as int),
{
    let w = ncols(m);
    let ghost h = m.height();
    let ghost start = *m;
    let mut j: usize = 0;
    while j < w
        invariant
            j <= w,
            w == start.width(),
            h == start.height(),
            m.height() == h,
            m.width() == w,
            src != dst,
            src < h,
            dst < h,
            start.is_binary(),
            forall|a: int, b: int|
                0 <= a < h && 0 <= b < w ==> #[trigger] m.at(a, b) == (if a == dst && b < j {
                    ((start.at(a, b) + start.at(src as int, b)) % 2) as u64
                } else {
                    start.at(a, b)
                }),
        decreases w - j,
    {
        let s = entry(m, src, j);
        let d = entry(m, dst, j);
        assert(s == start.at(src as int, j as int) && d == start.at(dst as int, j as int));
        assert(s <= 1 && d <= 1);
        set_entry(m, dst, j, (d + s) % 2);
        j += 1;
    }
    proof {
        assert forall|a: int, b: int| 0 <= a < h && 0 <= b < w implies #[trigger] m.at(a, b) <= 1 by {
            assert(start.at(a, b) <= 1);
            assert(start.at(src as int, b) <= 1);
        }
        lemma_same_grid(
            grid(*m),
            with_row_added(grid(start), w as nat, src as int, dst as int),
            h,
            w as nat,
        );
    }
}

/// Adds column `src`, modulo 2, to column `dst`.
fn cancel_in_column(m: &mut BoundaryMatrix, src: usize, dst: usize)
    requires
        src != dst,
        src < old(m).width(),
        dst < old(m).width(),
        old(m).is_binary(),
    ensures
        final(m).height() == old(m).height(),
        final(m).width() == old(m).width(),
        final(m).is_binary(),
        grid(*final(m)) == with_column_added(grid(*old(m)), old(m).width(), src as int, dst as int),
{
    let h = nrows(m);
    let ghost w = m.width();
    let ghost start = *m;
    let mut i: usize = 0;
    while i < h
        invariant
            i <= h,
            w == start.width(),
            h == start.height(),
            m.height() == h,
            m.width() == w,
            src != dst,
            src < w,
            dst < w,
            start.is_binary(),
            forall|a: int, b: int|
                0 <= a < h && 0 <= b < w ==> #[trigger] m.at(a, b) == (if b == dst && a < i {
                    ((start.at(a, b) + start.at(a, src as int)) % 2) as u64
                } else {
                    start.at(a, b)
                }),
        decreases h - i,
    {
        let s = entry(m, i, src);
        let d = entry(m, i, dst);
        assert(s == start.at(i as int, src as int) && d == start.at(i as int, dst as int));
        assert(s <= 1 && d <= 1);
        set_entry(m, i, dst, (d + s) % 2);
        i += 1;
    }
    proof {
        assert forall|a: int, b: int| 0 <= a < h && 0 <= b < w implies #[trigger] m.at(a, b) <= 1 by {
            assert(start.at(a, b) <= 1);
            assert(start.at(a, src as int) <= 1);
        }
        lemma_same_grid(
            grid(*m),
            with_column_added(grid(start), w, src as int, dst as int),
            h as nat,
            w,
        );
    }
}

/// One step of the elimination on the scratch copy, with the pivot found at
/// `(i, j)`.
fn reduce(m: &mut BoundaryMatrix, x: usize, i: usize, j: usize)
    requires
        old(m).is_binary(),
        x <= i < old(m).height(),
        x <= j < old(m).width(),
    ensures
        final(m).height() == old(m).height(),
        final(m).width() == old(m).width(),
        final(m).is_binary(),
        grid(*final(m)) == reduced(grid(*old(m)), old(m).width(), x as int, i as int, j as int),
{
    let h = nrows(m);
    let w = ncols(m);
    let ghost g0 = grid(*m);
    swap_rows(m, x, i);
    proof {
        lemma_same_grid(grid(*m), rows_swapped(g0, w as nat, x as int, i as int), h as nat, w as nat);
    }
    let ghost g1 = grid(*m);
    swap_columns(m, x, j);
    proof {
        lemma_same_grid(grid(*m), columns_swapped(g1, w as nat, x as int, j as int), h as nat, w as nat);
    }
    let ghost g2 = grid(*m);
    assert(m.is_binary());
    let mut k: usize = x + 1;
    while k < h
        invariant
            x < k <= h,
            x < w,
            m.height() == h,
            m.width() == w,
            m.is_binary(),
            grid(*m) == cleared_below(g2, w as nat, x as int, k as int),
        decreases h - k,
    {
        if entry(m, k, x) == 1 {
            cancel_in_row(m, x, k);
        }
        k += 1;
    }
    let ghost g3 = grid(*m);
    let mut c: usize = x + 1;
    while c < w
        invariant
            x < c <= w,
            x < h,
            m.height() == h,
            m.width() == w,
            m.is_binary(),
            grid(*m) == cleared_right(g3, w as nat, x as int, c as int),
        decreases w - c,
    {
        if entry(m, x, c) == 1 {
            cancel_in_column(m, x, c);
        }
        c += 1;
    }
}

/// The rank of `mat` over the field with two elements: the dimension of the
/// span of its rows, which is the number of pivots that the elimination
/// finds.
///
/// The entries of `mat` must be zeros and ones. The matrix itself is left as
/// it is: the elimination runs on a copy.
pub fn rank(mat: &BoundaryMatrix) -> (r: usize)
    requires
        mat.is_binary(),
    ensures
        r == rk(bits(grid(*mat), mat.width())),
        r == gf2_rank(grid(*mat), mat.width()),
        r <= mat.height(),
        r <= mat.width(),
{
    let mut m = clone_matrix(mat);
    let h = nrows(&m);
    let w = ncols(&m);
    proof {
        lemma_rank_is_dimension(grid(*mat), h as nat, w as nat);
        lemma_same_grid(grid(m), grid(*mat), h as nat, w as nat);
    }
    let mut x: usize = 0;
    while x < h && x < w
        invariant
            x <= h,
            x <= w,
            m.height() == h,
            m.width() == w,
            h == mat.height(),
            w == mat.width(),
            m.is_binary(),
            gf2_rank(grid(*mat), w as nat) == x + rank_from(grid(m), w as nat, x as int),
            gf2_rank(grid(*mat), w as nat) == rk(bits(grid(*mat), w as nat)),
        decreases w - x,
    {
        match find_pivot(&m, x) {
            None => {
                return x;
            },
            Some((i, j)) => {
                proof {
                    lemma_pivot_is_first(grid(m), w as nat, x as int, i as int, j as int);
                }
                reduce(&mut m, x, i, j);
                x += 1;
            },
        }
    }
    proof {
        lemma_rank_from_bounds(grid(m), h as nat, w as nat, x as int);
    }
    x
}

} // verus!
