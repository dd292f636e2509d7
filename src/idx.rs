//! Bounded indices into the grid, its sections and its bands.
use vstd::prelude::*;

use crate::text::{decimal, decimal_string};

verus! {

/// An index `x` with `x < N`.
#[derive(Debug, Clone, Copy, PartialEq, Eq)]
pub struct Idx<const N: usize>(usize);

/// An index into the 81 cells of the grid, in row-major order.
pub type GridIdx = Idx<81>;

/// An index of a row, a column or a box; boxes are numbered row-major from the top left.
pub type SectionIdx = Idx<9>;

/// An index into the nine cells of a section: the column within a row, the row within a
/// column, and the row-major position within a box.
pub type InnerIdx = Idx<9>;

/// An index of a band of three boxes: `0..3` are the vertical bands from the left, `3..6`
/// the horizontal bands from the top.
pub type AreaIdx = Idx<6>;

/// The box that holds the cell at grid position `p`.
pub open spec fn box_of(p: int) -> int {
    3 * (p / 9 / 3) + p % 9 / 3
}

/// The position of the cell at grid position `p` within its box.
pub open spec fn box_inner_of(p: int) -> int {
    3 * (p / 9 % 3) + p % 9 % 3
}

/// The `k`-th box of band `a`.
pub open spec fn area_box(a: int, k: int) -> int {
    if a < 3 {
        a + 3 * k
    } else {
        3 * (a - 3) + k
    }
}

impl<const N: usize> Idx<N> {
    /// The index's value.
    pub closed spec fn view(self) -> int {
        if self.0 < N {
            self.0 as int
        } else {
            0
        }
    }

    #[verifier::type_invariant]
    spec fn below_bound(self) -> bool {
        self.0 < N
    }

    /// Every index lies below its bound.
    pub broadcast proof fn lemma_range(i: Idx<N>)
        ensures
            0 <= #[trigger] i@,
            N > 0 ==> i@ < N,
    {
    }

    /// Creates an index, or `None` when `n` is not below the bound.
    pub fn new(n: usize) -> (r: Option<Idx<N>>)
        ensures
            r is Some <==> n < N,
            r matches Some(i) ==> i@ == n,
    {
        if n < N {
            Some(Idx(n))
        } else {
            None
        }
    }

    /// Creates an index from a value the caller knows to be below the bound.
    pub fn new_unchecked(n: usize) -> (r: Idx<N>)
        requires
            n < N,
        ensures
            r@ == n,
    {
        Idx(n)
    }

    /// The index's value.
    pub fn to_usize(self) -> (r: usize)
        ensures
            r == self@,
            r < N,
    {
        proof {
            use_type_invariant(&self);
        }
        self.0
    }

    /// The index in decimal.
    pub fn to_string(&self) -> (r: String)
        ensures
            r@ == decimal(self@ as nat),
    {
        decimal_string(self.to_usize())
    }
}

/// Checked conversion of an integer into an index.
pub trait TryIntoIdx {
    /// The index of value `self`, or `None` when `self` is not below `N`.
    fn try_to_idx<const N: usize>(self) -> Option<Idx<N>>;
}

impl TryIntoIdx for usize {
    fn try_to_idx<const N: usize>(self) -> (r: Option<Idx<N>>) {
        Idx::new(self)
    }
}

impl Idx<81> {
    /// The row, column and box holding this cell, in that order.
    pub fn section_idxs(self) -> (r: [SectionIdx; 3])
        ensures
            r[0]@ == self@ / 9,
            r[1]@ == self@ % 9,
            r[2]@ == box_of(self@),
    {
        let i = self.to_usize();
        let row = i / 9;
        let col = i % 9;
        let box_ = 3 * (row / 3) + col / 3;
        [Idx(row), Idx(col), Idx(box_)]
    }

    /// The cell's position within its row, its column and its box, in that order.
    pub fn inner_idxs(self) -> (r: [InnerIdx; 3])
        ensures
            r[0]@ == self@ % 9,
            r[1]@ == self@ / 9,
            r[2]@ == box_inner_of(self@),
    {
        let i = self.to_usize();
        let row = i / 9;
        let col = i % 9;
        let box_inner = 3 * (row % 3) + col % 3;
        [Idx(col), Idx(row), Idx(box_inner)]
    }

    /// For the cell's row, column and box, in that order, the section's index and the
    /// cell's position within it.
    pub fn associated_idxs(self) -> (r: [(SectionIdx, InnerIdx); 3])
        ensures
            r[0].0@ == self@ / 9 && r[0].1@ == self@ % 9,
            r[1].0@ == self@ % 9 && r[1].1@ == self@ / 9,
            r[2].0@ == box_of(self@) && r[2].1@ == box_inner_of(self@),
    {
        let s = self.section_idxs();
        let n = self.inner_idxs();
        [(s[0], n[0]), (s[1], n[1]), (s[2], n[2])]
    }
}

impl Idx<6> {
    /// The three boxes of this band, from the top for a vertical band and from the left for
    /// a horizontal one.
    pub fn to_box_section_idxs(self) -> (r: [SectionIdx; 3])
        ensures
            forall|k: int| 0 <= k < 3 ==> #[trigger] r[k]@ == area_box(self@, k),
    {
        let a = self.to_usize();
        if a < 3 {
            [Idx(a), Idx(a + 3), Idx(a + 6)]
        } else {
            let first = 3 * (a - 3);
            [Idx(first), Idx(first + 1), Idx(first + 2)]
        }
    }
}

} // verus!
