//! The backtracking solver: tries the digits 1 to 9 in each empty cell in turn.
use vstd::prelude::*;

use crate::board::Board;
use crate::idx::box_of;
use crate::solver::Solver;

verus! {

broadcast use Board::lemma_digits;

/// Whether the cells at `p` and `q` share a row, a column or a box.
pub open spec fn shares_section(p: int, q: int) -> bool {
    p / 9 == q / 9 || p % 9 == q % 9 || box_of(p) == box_of(q)
}

/// Whether no other cell of the row, column or box of `q` holds the digit at `q`.
pub open spec fn fits(g: Seq<u8>, q: int) -> bool {
    forall|p: int| 0 <= p < 81 && p != q && shares_section(p, q) ==> #[trigger] g[p] != g[q]
}

/// Whether `p` is one of the cells `gs[k..]`.
pub open spec fn in_tail(gs: Seq<usize>, k: int, p: int) -> bool {
    exists|j: int| k <= j < gs.len() && gs[j] == p
}

/// `h` fills the cells `gs[k..]` of `g` with digits that each fit, and keeps every other
/// cell of `g`.
pub open spec fn extends(h: Seq<u8>, g: Seq<u8>, gs: Seq<usize>, k: int) -> bool {
    &&& h.len() == 81
    &&& forall|p: int| 0 <= p < 81 && !in_tail(gs, k, p) ==> h[p] == g[p]
    &&& forall|j: int| k <= j < gs.len() ==> 1 <= #[trigger] h[gs[j] as int] <= 9 && fits(h, gs[j] as int)
}

/// `h` completes `g`: it keeps every given digit of `g` and fills each empty cell with a
/// digit that no other cell of its row, column or box holds.
pub open spec fn completes(h: Seq<u8>, g: Seq<u8>) -> bool {
    &&& h.len() == 81
    &&& forall|p: int| 0 <= p < 81 && g[p] != 0 ==> #[trigger] h[p] == g[p]
    &&& forall|p: int| 0 <= p < 81 && g[p] == 0 ==> 1 <= #[trigger] h[p] <= 9 && fits(h, p)
}

/// The backtracking solver.
pub struct Backtracker {
    grid: Grid,
}

/// The backtracking solver's board: 81 digits, `0` for an empty cell.
pub struct Grid([u8; 81]);

impl Grid {
    /// The board's digits.
    pub closed spec fn view(self) -> Seq<u8> {
        self.0@
    }

    #[verifier::type_invariant]
    spec fn digits_in_range(self) -> bool {
        forall|i: int| 0 <= i < 81 ==> #[trigger] self.0[i] <= 9
    }

    /// The backtracking board of a board.
    pub fn from(board: Board) -> (r: Grid)
        ensures
            r@ == board@,
    {
        let mut cells = [0u8; 81];
        let mut i: usize = 0;
        while i < 81
            invariant
                i <= 81,
                forall|k: int| 0 <= k < 81 ==> #[trigger] cells[k] <= 9,
                forall|k: int| 0 <= k < i ==> #[trigger] cells[k] == board@[k],
            decreases 81 - i,
        {
            cells[i] = board.get(i);
            i = i + 1;
        }
        let r = Grid(cells);
        proof {
            assert(r@ =~= board@);
        }
        r
    }

    /// The board holding this board's digits.
    pub fn to_board(&self) -> (r: Board)
        ensures
            r@ == self@,
    {
        proof {
            use_type_invariant(self);
        }
        let r = Board::from_array(self.0);
        r
    }

    /// The positions of the empty cells, in increasing order.
    pub fn guess_idxs(&self) -> (r: Vec<usize>)
        ensures
            forall|j: int| 0 <= j < r@.len() ==> #[trigger] r@[j] < 81 && self@[r@[j] as int] == 0,
            forall|i: int, j: int| 0 <= i < j < r@.len() ==> r@[i] < r@[j],
            forall|p: int| 0 <= p < 81 && self@[p] == 0 ==> exists|j: int| 0 <= j < r@.len() && r@[j] == p,
    {
        let mut r: Vec<usize> = Vec::new();
        let mut p: usize = 0;
        while p < 81
            invariant
                p <= 81,
                forall|j: int| 0 <= j < r@.len() ==> #[trigger] r@[j] < p && self@[r@[j] as int] == 0,
                forall|i: int, j: int| 0 <= i < j < r@.len() ==> r@[i] < r@[j],
                forall|q: int| 0 <= q < p && self@[q] == 0 ==> exists|j: int| 0 <= j < r@.len() && r@[j] == q,
            decreases 81 - p,
        {
            let ghost before = r@;
            if self.0[p] == 0 {
                r.push(p);
                proof {
                    assert(r@[r@.len() - 1] == p);
                }
            }
            proof {
                assert forall|q: int| 0 <= q < p + 1 && self@[q] == 0 implies exists|j: int| 0 <= j < r@.len() && r@[j] == q by {
                    if q < p {
                        let j = choose|j: int| 0 <= j < before.len() && before[j] == q;
                        assert(r@[j] == q);
                    } else {
                        assert(r@[r@.len() - 1] == q);
                    }
                }
            }
            p = p + 1;
        }
        r
    }

    /// Whether the digit at `q` differs from every other cell of its row, column and box.
    fn fits_at(&self, q: usize) -> (r: bool)
        requires
            q < 81,
        ensures
            r == fits(self@, q as int),
    {
        let d = self.0[q];
        let row = q / 9;
        let col = q % 9;
        let bx = 3 * (row / 3) + col / 3;
        let mut p: usize = 0;
        while p < 81
            invariant
                p <= 81,
                q < 81,
                d == self@[q as int],
                row == q / 9,
                col == q % 9,
                bx == box_of(q as int),
                forall|p2: int| 0 <= p2 < p && p2 != q && shares_section(p2, q as int) ==> #[trigger] self@[p2] != d,
            decreases 81 - p,
        {
            let r2 = p / 9;
            let c2 = p % 9;
            let shares = r2 == row || c2 == col || 3 * (r2 / 3) + c2 / 3 == bx;
            if p != q && shares && self.0[p] == d {
                return false;
            }
            p = p + 1;
        }
        true
    }

    /// Fills the cells `gs[k..]` by backtracking; on failure the board is left as it was.
    fn solve_from(&mut self, gs: &Vec<usize>, k: usize) -> (r: bool)
        requires
            k <= gs@.len(),
            forall|j: int| 0 <= j < gs@.len() ==> #[trigger] gs@[j] < 81,
            forall|i: int, j: int| 0 <= i < j < gs@.len() ==> gs@[i] < gs@[j],
            forall|j: int| k <= j < gs@.len() ==> old(self)@[#[trigger] gs@[j] as int] == 0,
        ensures
            final(self)@.len() == 81,
            forall|p: int| 0 <= p < 81 && !(exists|j: int| k <= j < gs@.len() && gs@[j] == p) ==> #[trigger] final(self)@[p] == old(self)@[p],
            r ==> forall|j: int| k <= j < gs@.len() ==> 1 <= #[trigger] final(self)@[gs@[j] as int] <= 9
                && fits(final(self)@, gs@[j] as int),
            !r ==> final(self)@ == old(self)@,
            !r ==> forall|h: Seq<u8>| !#[trigger] extends(h, old(self)@, gs@, k as int),
        decreases gs@.len() - k,
    {
        if k == gs.len() {
            proof {
                assert forall|p: int| 0 <= p < 81 && !(exists|j: int| k <= j < gs@.len() && gs@[j] == p) implies #[trigger] self@[p] == old(self)@[p] by {}
            }
            return true;
        }
        let q = gs[k];
        let next = k + 1;
        let ghost start = self@;
        let mut d: u8 = 1;
        while d <= 9
            invariant
                1 <= d <= 10,
                self@ == start,
                start == old(self)@,
                q == gs@[k as int],
                next == k + 1,
                q < 81,
                k < gs@.len(),
                forall|j: int| 0 <= j < gs@.len() ==> #[trigger] gs@[j] < 81,
                forall|i: int, j: int| 0 <= i < j < gs@.len() ==> gs@[i] < gs@[j],
                forall|j: int| k <= j < gs@.len() ==> start[#[trigger] gs@[j] as int] == 0,
                forall|h: Seq<u8>| #[trigger] extends(h, start, gs@, k as int) ==> h[q as int] >= d,
            decreases 10 - d,
        {
            proof {
                use_type_invariant(&*self);
            }
            self.0[q] = d;
            proof {
                assert(self@ =~= start.update(q as int, d));
            }
            if self.fits_at(q) {
                let ghost placed = self@;
                if self.solve_from(gs, next) {
                    proof {
                        assert(forall|j: int| k + 1 <= j < gs@.len() ==> gs@[j] != q);
                        assert(self@[q as int] == d);
                        assert forall|p: int| 0 <= p < 81 && p != q && shares_section(p, q as int) implies #[trigger] self@[p] != self@[q as int] by {
                            if exists|j: int| k + 1 <= j < gs@.len() && gs@[j] == p {
                                let j = choose|j: int| k + 1 <= j < gs@.len() && gs@[j] == p;
                                assert(fits(self@, gs@[j] as int));
                                assert(shares_section(q as int, p));
                            } else {
                                assert(self@[p] == placed[p]);
                            }
                        }
                        assert forall|p: int| 0 <= p < 81 && !(exists|j: int| k <= j < gs@.len() && gs@[j] == p) implies #[trigger] self@[p] == start[p] by {
                            assert(p != q);
                            if exists|j: int| k + 1 <= j < gs@.len() && gs@[j] == p {
                                let j = choose|j: int| k + 1 <= j < gs@.len() && gs@[j] == p;
                                assert(k <= j);
                            }
                        }
                    }
                    return true;
                }
            }
            proof {
                let placed = start.update(q as int, d);
                assert forall|h: Seq<u8>| #[trigger] extends(h, start, gs@, k as int) implies h[q as int] != d by {
                    if h[q as int] == d {
                        assert(forall|j: int| k + 1 <= j < gs@.len() ==> gs@[j] != q);
                        if fits(placed, q as int) {
                            assert(extends(h, placed, gs@, k + 1)) by {
                                assert forall|p: int| 0 <= p < 81 && !in_tail(gs@, k + 1, p) implies h[p] == placed[p] by {
                                    if p != q {
                                        if in_tail(gs@, k as int, p) {
                                            let j = choose|j: int| k <= j < gs@.len() && gs@[j] == p;
                                            assert(j != k);
                                        }
                                    }
                                }
                            }
                        } else {
                            let p = choose|p: int| 0 <= p < 81 && p != q && shares_section(p, q as int) && !(#[trigger] placed[p] != placed[q as int]);
                            assert(placed[p] == d);
                            if in_tail(gs@, k as int, p) {
                                let j = choose|j: int| k <= j < gs@.len() && gs@[j] == p;
                                assert(start[gs@[j] as int] == 0);
                            }
                            assert(h[p] == start[p]);
                            assert(fits(h, gs@[k as int] as int));
                        }
                    }
                }
            }
            self.0[q] = 0;
            proof {
                assert(self@ =~= start);
            }
            d = d + 1;
        }
        proof {
            assert forall|h: Seq<u8>| !#[trigger] extends(h, start, gs@, k as int) by {
                if extends(h, start, gs@, k as int) {
                    assert(1 <= h[gs@[k as int] as int] <= 9);
                }
            }
        }
        false
    }

    /// Solves the board by backtracking over its empty cells in increasing order, trying the
    /// digits from 1 to 9 in each. It succeeds exactly when the board has a completion: on
    /// success the board is one, keeping the given digits and filling each empty cell with a
    /// digit that no other cell of its row, column or box holds; otherwise the board is left
    /// as it was.
    pub fn backtrack_solve(&mut self) -> (solved: bool)
        ensures
            forall|p: int| 0 <= p < 81 && old(self)@[p] != 0 ==> #[trigger] final(self)@[p] == old(self)@[p],
            solved ==> forall|p: int| 0 <= p < 81 ==> 1 <= #[trigger] final(self)@[p] <= 9,
            solved ==> forall|p: int| 0 <= p < 81 && old(self)@[p] == 0 ==> #[trigger] fits(final(self)@, p),
            solved ==> completes(final(self)@, old(self)@),
            !solved ==> final(self)@ == old(self)@,
            !solved ==> forall|h: Seq<u8>| !#[trigger] completes(h, old(self)@),
    {
        proof {
            use_type_invariant(&*self);
        }
        let gs = self.guess_idxs();
        let solved = self.solve_from(&gs, 0);
        proof {
            use_type_invariant(&*self);
            assert forall|p: int| 0 <= p < 81 && old(self)@[p] != 0 implies #[trigger] self@[p] == old(self)@[p] by {
                if exists|j: int| 0 <= j < gs@.len() && gs@[j] == p {
                    let j = choose|j: int| 0 <= j < gs@.len() && gs@[j] == p;
                    assert(old(self)@[gs@[j] as int] == 0);
                }
            }
            if solved {
                assert forall|p: int| 0 <= p < 81 implies 1 <= #[trigger] self@[p] <= 9 by {
                    if old(self)@[p] == 0 {
                        let j = choose|j: int| 0 <= j < gs@.len() && gs@[j] == p;
                        assert(1 <= self@[gs@[j] as int] <= 9);
                    } else {
                        assert(self.0[p] <= 9);
                    }
                }
                assert forall|p: int| 0 <= p < 81 && old(self)@[p] == 0 implies #[trigger] fits(self@, p) by {
                    let j = choose|j: int| 0 <= j < gs@.len() && gs@[j] == p;
                    assert(fits(self@, gs@[j] as int));
                }
                assert forall|p: int| 0 <= p < 81 && old(self)@[p] == 0 implies 1 <= #[trigger] self@[p] <= 9 && fits(self@, p) by {
                    assert(fits(self@, p));
                }
            } else {
                assert forall|h: Seq<u8>| !#[trigger] completes(h, old(self)@) by {
                    if completes(h, old(self)@) {
                        assert(extends(h, old(self)@, gs@, 0)) by {
                            assert forall|p: int| 0 <= p < 81 && !in_tail(gs@, 0, p) implies h[p] == old(self)@[p] by {
                                if old(self)@[p] == 0 {
                                    let j = choose|j: int| 0 <= j < gs@.len() && gs@[j] == p;
                                    assert(in_tail(gs@, 0, p));
                                }
                            }
                            assert forall|j: int| 0 <= j < gs@.len() implies 1 <= #[trigger] h[gs@[j] as int] <= 9 && fits(h, gs@[j] as int) by {
                                assert(old(self)@[gs@[j] as int] == 0);
                            }
                        }
                    }
                }
            }
        }
        solved
    }
}

impl Solver for Backtracker {
    fn init(board: Board) -> Backtracker {
        Backtracker { grid: Grid::from(board) }
    }

    fn solve(self) -> Board {
        let mut grid = self.grid;
        grid.backtrack_solve();
        grid.to_board()
    }
}

} // verus!
