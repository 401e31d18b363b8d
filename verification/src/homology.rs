//! What the complex reports: how many simplices it holds in each dimension,
//! and its Betti numbers.

use crate::complex::SimplicialComplex;
use crate::matrix::{grid, ncols};
use crate::rank::rank;
use crate::rank_laws::bits;
use crate::span::rk;
use crate::slots::holds_simplex;
use vstd::prelude::*;

verus! {

impl SimplicialComplex {
    /// The number of dimensions, counted from 0, up to the highest of the
    /// first `m` that holds a simplex.
    pub open spec fn populated_below(&self, m: int) -> int
        decreases m,
    {
        if m <= 0 {
            0
        } else if self.count(m - 1) > 0 {
            m
        } else {
            self.populated_below(m - 1)
        }
    }

    /// The number of populated dimensions: one more than the highest
    /// dimension in which the complex holds a simplex, or 0 if it is empty.
    pub open spec fn populated(&self) -> int {
        self.populated_below(self.levels())
    }

    /// The rank, over the field with two elements, of the boundary matrix of
    /// dimension `d`: the dimension of the span of its rows.
    pub open spec fn boundary_rank(&self, d: int) -> int {
        if 0 <= d < self.levels() {
            rk(bits(grid(self.boundary_matrices@[d]), self.boundary_matrices@[d].width())) as int
        } else {
            0
        }
    }

    /// The Betti number computed from the boundary matrices of dimensions `d`
    /// and `d + 1`: the dimension of the kernel of the first, which is its
    /// number of columns less its rank, less the rank of the second. It counts
    /// the independent holes bounded by simplices of dimension `d + 1`.
    pub open spec fn betti(&self, d: int) -> int {
        (self.count(d + 1) - self.boundary_rank(d)) - self.boundary_rank(d + 1)
    }

    /// `numbers` is the list of the Betti numbers of the complex: one for
    /// each populated dimension above 0, each as `betti` gives it.
    pub open spec fn is_betti_list(&self, numbers: Seq<i64>) -> bool {
        &&& numbers.len() == (if self.populated() >= 1 {
            self.populated() - 1
        } else {
            0
        })
        &&& forall|d: int| 0 <= d < numbers.len() ==> #[trigger] numbers[d] == self.betti(d)
    }

    /// The complex has one list of Betti numbers: asked twice, with no change
    /// between, it gives the same answer.
    pub proof fn lemma_one_betti_list(&self, first: Seq<i64>, second: Seq<i64>)
        requires
            self.is_betti_list(first),
            self.is_betti_list(second),
        ensures
            first == second,
    {
        assert(first =~= second);
    }

    /// Every dimension holds few enough simplices for a count to fit `i64`.
    pub open spec fn countable(&self) -> bool {
        forall|d: int| 0 <= d < self.levels() ==> #[trigger] self.count(d) <= i64::MAX
    }

    /// Above the populated dimensions the complex holds nothing.
    pub proof fn lemma_populated(&self, m: int)
        requires
            0 <= m <= self.levels(),
        ensures
            0 <= self.populated_below(m) <= m,
            self.populated_below(m) > 0 ==> self.count(self.populated_below(m) - 1) > 0,
            forall|d: int| self.populated_below(m) <= d < m ==> #[trigger] self.count(d) == 0,
        decreases m,
    {
        if m > 0 && self.count(m - 1) <= 0 {
            self.lemma_populated(m - 1);
        }
    }

    /// The number of populated dimensions.
    pub fn populated_dimensions(&self) -> (top: usize)
        requires
            self.wf(),
        ensures
            top == self.populated(),
            top <= self.levels(),
    {
        let mut top = self.simplices.len();
        while top > 0 && self.simplices[top - 1].len() == 0
            invariant
                self.wf(),
                top <= self.levels(),
                self.populated() == self.populated_below(top as int),
            decreases top,
        {
            top -= 1;
        }
        proof {
            self.lemma_populated(top as int);
        }
        top
    }

    /// The number of simplices in each populated dimension: position `d` of
    /// the result counts the simplices of dimension `d`.
    pub fn simplex_counts(&self) -> (counts: Vec<usize>)
        requires
            self.wf(),
        ensures
            counts@.len() == self.populated(),
            forall|d: int| 0 <= d < counts@.len() ==> #[trigger] counts@[d] == self.count(d),
    {
        let top = self.populated_dimensions();
        let mut counts: Vec<usize> = Vec::new();
        let mut d: usize = 0;
        while d < top
            invariant
                self.wf(),
                top <= self.levels(),
                d <= top,
                counts@.len() == d,
                forall|e: int| 0 <= e < d ==> #[trigger] counts@[e] == self.count(e),
            decreases top - d,
        {
            counts.push(self.simplices[d].len());
            d += 1;
        }
        counts
    }

    /// Whether the complex holds `simplex`.
    pub fn contains(&self, simplex: &Vec<usize>) -> (yes: bool)
        requires
            self.wf(),
        ensures
            yes == self.has(simplex@),
    {
        if simplex.len() == 0 || simplex.len() > self.simplex_indices.len() {
            return false;
        }
        let d = simplex.len() - 1;
        proof {
            assert(self.level_wf(d as int));
            self.lemma_holds_pairs(d as int, simplex@);
        }
        holds_simplex(&self.simplex_indices[d], simplex)
    }

    /// The Betti numbers of the complex, from the first on: position `d` of
    /// the result holds the one computed from the boundary matrices of
    /// dimensions `d` and `d + 1`. There is one for each populated dimension
    /// above 0, and none is negative. The complex is left as it is.
    pub fn betti_numbers(&self) -> (numbers: Vec<i64>)
        requires
            self.wf(),
            self.countable(),
        ensures
            numbers@.len() == (if self.populated() >= 1 {
                self.populated() - 1
            } else {
                0
            }),
            forall|d: int| 0 <= d < numbers@.len() ==> #[trigger] numbers@[d] == self.betti(d),
            forall|d: int| 0 <= d < numbers@.len() ==> #[trigger] numbers@[d] >= 0,
            self.is_betti_list(numbers@),
    {
        let top = self.populated_dimensions();
        let mut numbers: Vec<i64> = Vec::new();
        if top < 2 {
            return numbers;
        }
        proof {
            assert forall|e: int| 0 <= e < self.levels() implies (#[trigger] self.boundary_matrices@[e]).is_binary() by {
                assert(self.level_wf(e));
            }
            assert(self.level_wf(0));
        }
        let mut lower = rank(&self.boundary_matrices[0]);
        let mut d: usize = 0;
        while d + 1 < top
            invariant
                self.wf(),
                self.countable(),
                2 <= top <= self.levels(),
                d + 1 <= top,
                numbers@.len() == d,
                lower == self.boundary_rank(d as int),
                lower <= self.count(d + 1),
                forall|e: int| 0 <= e < self.levels() ==> (#[trigger] self.boundary_matrices@[e]).is_binary(),
                forall|e: int| 0 <= e < d ==> #[trigger] numbers@[e] == self.betti(e),
            decreases top - d,
        {
            proof {
                assert(self.level_wf(d as int));
                assert(self.level_wf(d + 1));
                assert(self.count(d + 1) <= i64::MAX);
            }
            let upper = rank(&self.boundary_matrices[d + 1]);
            let columns = ncols(&self.boundary_matrices[d]);
            let kernel = columns as i64 - lower as i64;
            let value = kernel - upper as i64;
            numbers.push(value);
            lower = upper;
            d += 1;
        }
        proof {
            assert forall|e: int| 0 <= e < numbers@.len() implies #[trigger] numbers@[e] >= 0 by {
                self.lemma_betti_not_negative(e);
            }
        }
        numbers
    }
}

} // verus!
