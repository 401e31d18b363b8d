//! The boundary matrix store: dense matrices of `u64` entries held by
//! `nalgebra`, and the contracts under which the rest of the library uses them.
//!
//! The verifier does not look inside a `nalgebra` matrix. What it knows of one
//! is what the functions marked `external_body` below state, each under the
//! name of the `nalgebra` function that it calls.

use nalgebra::DMatrix;
use vstd::prelude::*;

verus! {

/// A dense matrix of `u64` entries. The entries live in a `nalgebra` matrix,
/// of which the verifier sees only what the functions of this module state.
#[verifier::external_body]
pub struct BoundaryMatrix {
    inner: DMatrix<u64>,
}

/// The rows of a matrix, top to bottom, each row left to right.
pub uninterp spec fn matrix_rows(m: BoundaryMatrix) -> Seq<Seq<u64>>;

/// The number of columns of a matrix. It is kept apart from the rows, so that
/// a matrix without rows still has a width.
pub uninterp spec fn matrix_ncols(m: BoundaryMatrix) -> nat;

/// `DMatrix::zeros`, for a shape without cells: a matrix with `nrows` rows and
/// `ncols` columns.
#[verifier::external_body]
pub(crate) fn zeros(nrows: usize, ncols: usize) -> (m: BoundaryMatrix)
    requires
        nrows == 0 || ncols == 0,
    ensures
        matrix_rows(m).len() == nrows,
        matrix_ncols(m) == ncols,
{
    BoundaryMatrix { inner: DMatrix::<u64>::zeros(nrows, ncols) }
}

/// `Matrix::nrows`: the number of rows.
#[verifier::external_body]
pub(crate) fn nrows(m: &BoundaryMatrix) -> (n: usize)
    ensures
        n == matrix_rows(*m).len(),
{
    m.inner.nrows()
}

/// `Matrix::ncols`: the number of columns.
#[verifier::external_body]
pub(crate) fn ncols(m: &BoundaryMatrix) -> (n: usize)
    ensures
        n == matrix_ncols(*m),
{
    m.inner.ncols()
}

/// Indexing a matrix by `(row, column)`: the entry there. The index must lie
/// inside the matrix (outside it, `nalgebra` panics).
#[verifier::external_body]
pub(crate) fn entry(m: &BoundaryMatrix, i: usize, j: usize) -> (v: u64)
    requires
        i < matrix_rows(*m).len(),
        j < matrix_ncols(*m),
    ensures
        v == matrix_rows(*m)[i as int][j as int],
{
    m.inner[(i, j)]
}

/// Assigning through the index `(row, column)`: that entry becomes `v`, the
/// shape and all other entries stay.
#[verifier::external_body]
pub(crate) fn set_entry(m: &mut BoundaryMatrix, i: usize, j: usize, v: u64)
    requires
        i < matrix_rows(*old(m)).len(),
        j < matrix_ncols(*old(m)),
    ensures
        matrix_rows(*final(m)).len() == matrix_rows(*old(m)).len(),
        matrix_ncols(*final(m)) == matrix_ncols(*old(m)),
        forall|a: int, b: int|
            0 <= a < matrix_rows(*old(m)).len() && 0 <= b < matrix_ncols(*old(m)) ==> #[trigger] matrix_rows(
                *final(m),
            )[a][b] == (if a == i && b == j {
                v
            } else {
                matrix_rows(*old(m))[a][b]
            }),
{
    m.inner[(i, j)] = v;
}

/// `resize_vertically_mut`, used to grow by at most one row or to shrink: the
/// matrix then has `new_nrows` rows, the rows that stay keep their entries, and
/// a new row holds `val` everywhere.
#[verifier::external_body]
pub(crate) fn resize_rows(m: &mut BoundaryMatrix, new_nrows: usize, val: u64)
    requires
        new_nrows <= matrix_rows(*old(m)).len() + 1,
    ensures
        matrix_rows(*final(m)).len() == new_nrows,
        matrix_ncols(*final(m)) == matrix_ncols(*old(m)),
        forall|a: int, b: int|
            0 <= a < new_nrows && 0 <= b < matrix_ncols(*old(m)) ==> #[trigger] matrix_rows(*final(m))[a][b]
                == (if a < matrix_rows(*old(m)).len() {
                matrix_rows(*old(m))[a][b]
            } else {
                val
            }),
{
    m.inner.resize_vertically_mut(new_nrows, val);
}

/// `resize_horizontally_mut`, used to grow by at most one column or to shrink:
/// the matrix then has `new_ncols` columns, the columns that stay keep their
/// entries, and a new column holds `val` everywhere.
#[verifier::external_body]
pub(crate) fn resize_columns(m: &mut BoundaryMatrix, new_ncols: usize, val: u64)
    requires
        new_ncols <= matrix_ncols(*old(m)) + 1,
    ensures
        matrix_rows(*final(m)).len() == matrix_rows(*old(m)).len(),
        matrix_ncols(*final(m)) == new_ncols,
        forall|a: int, b: int|
            0 <= a < matrix_rows(*old(m)).len() && 0 <= b < new_ncols ==> #[trigger] matrix_rows(
                *final(m),
            )[a][b] == (if b < matrix_ncols(*old(m)) {
                matrix_rows(*old(m))[a][b]
            } else {
                val
            }),
{
    m.inner.resize_horizontally_mut(new_ncols, val);
}

/// `Matrix::remove_row`: the matrix without its row `i`; the rows below it
/// move up by one.
#[verifier::external_body]
pub(crate) fn remove_row(m: BoundaryMatrix, i: usize) -> (r: BoundaryMatrix)
    requires
        i < matrix_rows(m).len(),
    ensures
        matrix_rows(r).len() == matrix_rows(m).len() - 1,
        matrix_ncols(r) == matrix_ncols(m),
        forall|a: int, b: int|
            0 <= a < matrix_rows(m).len() - 1 && 0 <= b < matrix_ncols(m) ==> #[trigger] matrix_rows(r)[a][b]
                == matrix_rows(m)[if a < i {
                a
            } else {
                a + 1
            }][b],
{
    BoundaryMatrix { inner: m.inner.remove_row(i) }
}

/// `Matrix::remove_column`: the matrix without its column `j`; the columns
/// right of it move left by one.
#[verifier::external_body]
pub(crate) fn remove_column(m: BoundaryMatrix, j: usize) -> (r: BoundaryMatrix)
    requires
        j < matrix_ncols(m),
    ensures
        matrix_rows(r).len() == matrix_rows(m).len(),
        matrix_ncols(r) == matrix_ncols(m) - 1,
        forall|a: int, b: int|
            0 <= a < matrix_rows(m).len() && 0 <= b < matrix_ncols(m) - 1 ==> #[trigger] matrix_rows(r)[a][b]
                == matrix_rows(m)[a][if b < j {
                b
            } else {
                b + 1
            }],
{
    BoundaryMatrix { inner: m.inner.remove_column(j) }
}

/// `Matrix::swap_rows`: rows `a` and `b` change places.
#[verifier::external_body]
pub(crate) fn swap_rows(m: &mut BoundaryMatrix, a: usize, b: usize)
    requires
        a < matrix_rows(*old(m)).len(),
        b < matrix_rows(*old(m)).len(),
    ensures
        matrix_rows(*final(m)).len() == matrix_rows(*old(m)).len(),
        matrix_ncols(*final(m)) == matrix_ncols(*old(m)),
        forall|i: int, j: int|
            0 <= i < matrix_rows(*old(m)).len() && 0 <= j < matrix_ncols(*old(m)) ==> #[trigger] matrix_rows(
                *final(m),
            )[i][j] == matrix_rows(*old(m))[if i == a {
                b as int
            } else if i == b {
                a as int
            } else {
                i
            }][j],
{
    m.inner.swap_rows(a, b);
}

/// `Matrix::swap_columns`: columns `a` and `b` change places.
#[verifier::external_body]
pub(crate) fn swap_columns(m: &mut BoundaryMatrix, a: usize, b: usize)
    requires
        a < matrix_ncols(*old(m)),
        b < matrix_ncols(*old(m)),
    ensures
        matrix_rows(*final(m)).len() == matrix_rows(*old(m)).len(),
        matrix_ncols(*final(m)) == matrix_ncols(*old(m)),
        forall|i: int, j: int|
            0 <= i < matrix_rows(*old(m)).len() && 0 <= j < matrix_ncols(*old(m)) ==> #[trigger] matrix_rows(
                *final(m),
            )[i][j] == matrix_rows(*old(m))[i][if j == a {
                b as int
            } else if j == b {
                a as int
            } else {
                j
            }],
{
    m.inner.swap_columns(a, b);
}

/// `Clone::clone` of the `nalgebra` matrix: a matrix of the same shape with the
/// same entries.
#[verifier::external_body]
pub(crate) fn clone_matrix(m: &BoundaryMatrix) -> (r: BoundaryMatrix)
    ensures
        matrix_rows(r) == matrix_rows(*m),
        matrix_ncols(r) == matrix_ncols(*m),
{
    BoundaryMatrix { inner: m.inner.clone() }
}

/// The entries of a matrix as a grid: `height` rows of `width` entries each.
pub open spec fn grid(m: BoundaryMatrix) -> Seq<Seq<u64>> {
    Seq::new(matrix_rows(m).len(), |i: int| Seq::new(matrix_ncols(m), |j: int| matrix_rows(m)[i][j]))
}

impl BoundaryMatrix {
    /// The number of rows.
    #[verifier::inline]
    pub open spec fn height(self) -> nat {
        matrix_rows(self).len()
    }

    /// The number of columns.
    #[verifier::inline]
    pub open spec fn width(self) -> nat {
        matrix_ncols(self)
    }

    /// The entry in row `i` and column `j`.
    #[verifier::inline]
    pub open spec fn at(self, i: int, j: int) -> u64 {
        matrix_rows(self)[i][j]
    }

    /// Every entry is 0 or 1.
    pub open spec fn is_binary(self) -> bool {
        forall|i: int, j: int|
            0 <= i < self.height() && 0 <= j < self.width() ==> #[trigger] self.at(i, j) <= 1
    }

    /// A matrix without rows and without columns.
    pub fn new() -> (m: BoundaryMatrix)
        ensures
            m.height() == 0,
            m.width() == 0,
    {
        zeros(0, 0)
    }

    /// The number of rows.
    pub fn nrows(&self) -> (n: usize)
        ensures
            n == self.height(),
    {
        nrows(self)
    }

    /// The number of columns.
    pub fn ncols(&self) -> (n: usize)
        ensures
            n == self.width(),
    {
        ncols(self)
    }

    /// The entry in row `i` and column `j`, if the matrix has such a cell.
    pub fn get(&self, i: usize, j: usize) -> (v: Option<u64>)
        ensures
            v == (if i < self.height() && j < self.width() {
                Some(self.at(i as int, j as int))
            } else {
                None
            }),
    {
        if i < nrows(self) && j < ncols(self) {
            Some(entry(self, i, j))
        } else {
            None
        }
    }

    /// Sets the entry in row `i` and column `j` to `v`. Returns whether the
    /// matrix has such a cell; if not, nothing changes.
    pub fn set(&mut self, i: usize, j: usize, v: u64) -> (done: bool)
        ensures
            done == (i < old(self).height() && j < old(self).width()),
            final(self).height() == old(self).height(),
            final(self).width() == old(self).width(),
            forall|a: int, b: int|
                0 <= a < old(self).height() && 0 <= b < old(self).width() ==> #[trigger] final(self).at(a, b)
                    == (if a == i && b == j {
                    v
                } else {
                    old(self).at(a, b)
                }),
    {
        if i < nrows(self) && j < ncols(self) {
            set_entry(self, i, j, v);
            true
        } else {
            false
        }
    }

    /// Adds a row of zeros below the last row.
    pub fn push_row(&mut self)
        requires
            old(self).height() < usize::MAX,
        ensures
            final(self).height() == old(self).height() + 1,
            final(self).width() == old(self).width(),
            forall|a: int, b: int|
                0 <= a < final(self).height() && 0 <= b < old(self).width() ==> #[trigger] final(self).at(a, b)
                    == (if a < old(self).height() {
                    old(self).at(a, b)
                } else {
                    0
                }),
    {
        let n = nrows(self);
        resize_rows(self, n + 1, 0);
    }

    /// Adds a column of zeros right of the last column.
    pub fn push_column(&mut self)
        requires
            old(self).width() < usize::MAX,
        ensures
            final(self).height() == old(self).height(),
            final(self).width() == old(self).width() + 1,
            forall|a: int, b: int|
                0 <= a < old(self).height() && 0 <= b < final(self).width() ==> #[trigger] final(self).at(a, b)
                    == (if b < old(self).width() {
                    old(self).at(a, b)
                } else {
                    0
                }),
    {
        let n = ncols(self);
        resize_columns(self, n + 1, 0);
    }
}

} // verus!
