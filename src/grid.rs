//! The 81-cell board and the operations that read and narrow it.
use vstd::prelude::*;

use crate::cell::{CandidateError, Cell, CellMask};
use crate::filter::Filter;
use crate::idx::{box_inner_of, box_of, GridIdx, Idx};
use crate::num::Num;
use crate::section::{
    outcome_view, section_outcome, section_pos, Section, SectionInfo, SectionKind,
};
use crate::word::{digit_bit, has_digit, lemma_digit_ops, ALL_CANDIDATES};
use vstd::arithmetic::div_mod::lemma_fundamental_div_mod_converse;

verus! {

broadcast use Num::lemma_range, Idx::lemma_range;

/// The sudoku board: 81 cells in row-major order.
///
/// A cell may still hold candidates that a known neighbour rules out; the filters that a
/// newly known cell produces remove them.
#[derive(Debug, Clone, Copy, PartialEq, Eq)]
pub struct Grid([Cell; 81]);

/// Grid-related errors.
#[derive(Debug, Clone, Copy, PartialEq, Eq, Structural)]
pub enum GridError {
    /// A string did not hold exactly 81 digits.
    FromStringError,
}

/// The words of the nine cells of a section of the board `g`, in inner order.
pub open spec fn section_words(g: Seq<u16>, kind: SectionKind, s: int) -> Seq<u16> {
    Seq::new(9, |j: int| g[section_pos(kind, s, j)])
}

/// The kind of the `s`-th section of a cell: row, column, then box.
pub open spec fn kind_of(s: int) -> SectionKind {
    if s == 0 {
        SectionKind::Row
    } else if s == 1 {
        SectionKind::Column
    } else {
        SectionKind::Box
    }
}

/// The index of the `s`-th section (row, column, box) of the cell at position `p`.
pub open spec fn section_of(p: int, s: int) -> int {
    if s == 0 {
        p / 9
    } else if s == 1 {
        p % 9
    } else {
        box_of(p)
    }
}

/// The position of the cell at `p` within its `s`-th section (row, column, box).
pub open spec fn inner_of(p: int, s: int) -> int {
    if s == 0 {
        p % 9
    } else if s == 1 {
        p / 9
    } else {
        box_inner_of(p)
    }
}

/// The `k`-th of the nine inner positions other than `i`.
pub open spec fn skip_index(k: int, i: int) -> int {
    if k < i {
        k
    } else {
        k + 1
    }
}

/// The grid position of the `k`-th other cell in the `s`-th section of the cell at `p`.
pub open spec fn sibling_pos(p: int, s: int, k: int) -> int {
    section_pos(kind_of(s), section_of(p, s), skip_index(k, inner_of(p, s)))
}

/// The board `g` after applying one filter.
pub open spec fn filtered(g: Seq<u16>, f: Filter) -> Seq<u16> {
    g.update(f.idx@, g[f.idx@] & !f.mask@)
}

/// The board `g` after applying the filters `fs` in order.
pub open spec fn filtered_all(g: Seq<u16>, fs: Seq<Filter>) -> Seq<u16>
    decreases fs.len(),
{
    if fs.len() == 0 {
        g
    } else {
        filtered(filtered_all(g, fs.drop_last()), fs.last())
    }
}

/// Combines the finder results of a cell's sections: "none" is ignored, one digit is kept,
/// equal digits agree, and anything else is an inconsistency.
pub open spec fn combine_outcomes(
    acc: Result<Option<int>, CandidateError>,
    next: Result<Option<int>, CandidateError>,
) -> Result<Option<int>, CandidateError> {
    match (acc, next) {
        (_, Ok(None)) => acc,
        (Ok(None), Ok(Some(_))) => next,
        (Ok(Some(a)), Ok(Some(b))) => if a == b {
            acc
        } else {
            Err(CandidateError::MultipleUniqueCandidates)
        },
        _ => Err(CandidateError::MultipleUniqueCandidates),
    }
}

/// The unique-candidate outcome for the cell at `p` of board `g`, over its row, column and
/// box in that order.
pub open spec fn grid_outcome(g: Seq<u16>, p: int) -> Result<Option<int>, CandidateError> {
    let row = section_outcome(section_words(g, SectionKind::Row, p / 9), p % 9);
    let col = section_outcome(section_words(g, SectionKind::Column, p % 9), p / 9);
    let bx = section_outcome(section_words(g, SectionKind::Box, box_of(p)), box_inner_of(p));
    combine_outcomes(combine_outcomes(combine_outcomes(Ok(None), row), col), bx)
}

impl Grid {
    /// The words of the 81 cells.
    pub closed spec fn view(self) -> Seq<u16> {
        self.0@.map_values(|c: Cell| c@)
    }

    /// A board has 81 cells.
    pub broadcast proof fn lemma_len(g: Grid)
        ensures
            #[trigger] g@.len() == 81,
    {
    }

    /// The board made of the given cells.
    pub fn from_cells(cells: [Cell; 81]) -> (r: Grid)
        ensures
            r@ == cells@.map_values(|c: Cell| c@),
    {
        Grid(cells)
    }

    /// A copy of the cell at `idx`.
    pub fn get_cell(&self, idx: GridIdx) -> (r: Cell)
        ensures
            r@ == self@[idx@],
    {
        self.0[idx.to_usize()]
    }

    /// A mutable reference to the cell at `idx`.
    pub fn get_cell_mut(&mut self, idx: GridIdx) -> (r: &mut Cell)
        ensures
            (*r)@ == old(self)@[idx@],
            final(self)@ == old(self)@.update(idx@, final(r)@),
    {
        let i = idx.to_usize();
        &mut self.0[i]
    }

    /// Replaces the cell at `idx`.
    pub fn set_cell(&mut self, idx: GridIdx, cell: Cell)
        ensures
            final(self)@ == old(self)@.update(idx@, cell@),
    {
        let i = idx.to_usize();
        self.0[i] = cell;
        proof {
            assert(final(self)@ =~= old(self)@.update(idx@, cell@));
        }
    }

    /// A copy of the nine cells of a section.
    pub fn get_section(&self, section_info: SectionInfo) -> (r: Section)
        ensures
            r.info == section_info,
            r.words() == section_words(self@, section_info.kind, section_info.idx@),
    {
        let grid_idxs = section_info.grid_idxs();
        let mut cells = [Cell::zeroed(); 9];
        let mut j: usize = 0;
        while j < 9
            invariant
                j <= 9,
                forall|k: int| 0 <= k < 9 ==> #[trigger] grid_idxs[k]@ == section_pos(section_info.kind, section_info.idx@, k),
                forall|k: int| 0 <= k < j ==> #[trigger] cells[k]@ == self@[section_pos(section_info.kind, section_info.idx@, k)],
            decreases 9 - j,
        {
            cells[j] = self.get_cell(grid_idxs[j]);
            j = j + 1;
        }
        let r = Section::new(section_info, cells);
        proof {
            assert(r.words() =~= section_words(self@, section_info.kind, section_info.idx@));
        }
        r
    }

    /// Copies of the row, the column and the box holding the cell at `grid_idx`.
    pub fn get_sections(&self, grid_idx: GridIdx) -> (r: [Section; 3])
        ensures
            forall|s: int| 0 <= s < 3 ==> (#[trigger] r[s]).info.kind == kind_of(s)
                && r[s].info.idx@ == section_of(grid_idx@, s)
                && r[s].words() == section_words(self@, kind_of(s), section_of(grid_idx@, s)),
    {
        let section_idxs = grid_idx.section_idxs();
        let row = self.get_section(SectionInfo::new(SectionKind::Row, section_idxs[0]));
        let col = self.get_section(SectionInfo::new(SectionKind::Column, section_idxs[1]));
        let bx = self.get_section(SectionInfo::new(SectionKind::Box, section_idxs[2]));
        [row, col, bx]
    }

    /// Removes the filter's candidates from its cell.
    pub fn apply_filter(&mut self, filter: Filter)
        ensures
            final(self)@ == filtered(old(self)@, filter),
    {
        let i = filter.idx.to_usize();
        let mut cell = self.0[i];
        cell.remove_candidates(filter.mask);
        self.0[i] = cell;
        proof {
            assert(final(self)@ =~= filtered(old(self)@, filter));
        }
    }

    /// Applies each filter in turn.
    pub fn apply_filters(&mut self, filters: &[Filter])
        ensures
            final(self)@ == filtered_all(old(self)@, filters@),
    {
        let mut i: usize = 0;
        while i < filters.len()
            invariant
                i <= filters@.len(),
                self@ == filtered_all(old(self)@, filters@.subrange(0, i as int)),
            decreases filters@.len() - i,
        {
            proof {
                assert(filters@.subrange(0, i as int + 1).drop_last() =~= filters@.subrange(0, i as int));
            }
            self.apply_filter(filters[i]);
            i = i + 1;
        }
        proof {
            assert(filters@.subrange(0, i as int) =~= filters@);
        }
    }

    /// The filters that remove the digit `n` from the other cells of the row, the column and
    /// the box of the cell at `grid_idx`: eight for each section, in that order. The four
    /// cells shared by the box and a line are filtered twice.
    pub fn known_filters(n: Num, grid_idx: GridIdx) -> (r: [Filter; 24])
        ensures
            forall|t: int| 0 <= t < 24 ==> (#[trigger] r[t]).mask@ == digit_bit(n@)
                && r[t].idx@ == sibling_pos(grid_idx@, t / 8, t % 8),
    {
        let section_idxs = grid_idx.section_idxs();
        let inner_idxs = grid_idx.inner_idxs();
        let sections = [
            SectionInfo::new(SectionKind::Row, section_idxs[0]).grid_idxs(),
            SectionInfo::new(SectionKind::Column, section_idxs[1]).grid_idxs(),
            SectionInfo::new(SectionKind::Box, section_idxs[2]).grid_idxs(),
        ];
        let mask = CellMask::from_known(n);
        let mut filters = [Filter::new(mask, grid_idx); 24];
        let mut t: usize = 0;
        while t < 24
            invariant
                t <= 24,
                mask@ == digit_bit(n@),
                forall|s: int, j: int| 0 <= s < 3 && 0 <= j < 9 ==> (#[trigger] sections[s][j])@ == section_pos(kind_of(s), section_of(grid_idx@, s), j),
                forall|s: int| 0 <= s < 3 ==> (#[trigger] inner_idxs[s])@ == inner_of(grid_idx@, s),
                forall|u: int| 0 <= u < 24 ==> (#[trigger] filters[u]).mask@ == digit_bit(n@),
                forall|u: int| 0 <= u < t ==> (#[trigger] filters[u]).idx@ == sibling_pos(grid_idx@, u / 8, u % 8),
            decreases 24 - t,
        {
            let s = t / 8;
            let k = t % 8;
            let inner = inner_idxs[s].to_usize();
            let j = if k < inner { k } else { k + 1 };
            proof {
                assert(0 <= s < 3);
                assert(inner < 9);
            }
            filters[t] = Filter::new(mask, sections[s][j]);
            t = t + 1;
        }
        filters
    }

    /// The unique-candidate finder over the row, the column and the box of the cell at
    /// `grid_idx`, combined: sections that find nothing are ignored, one digit is the answer,
    /// and sections that disagree, or one that finds several digits, give
    /// [`CandidateError::MultipleUniqueCandidates`].
    pub fn unique_candidate(&self, grid_idx: GridIdx) -> (r: Result<Option<Num>, CandidateError>)
        ensures
            outcome_view(r) == grid_outcome(self@, grid_idx@),
    {
        let sections = self.get_sections(grid_idx);
        let inner_idxs = grid_idx.inner_idxs();
        let mut result: Result<Option<Num>, CandidateError> = Ok(None);
        let ghost acc: Result<Option<int>, CandidateError> = Ok(None);
        let mut s: usize = 0;
        while s < 3
            invariant
                s <= 3,
                forall|k: int| 0 <= k < 3 ==> (#[trigger] sections[k]).words() == section_words(self@, kind_of(k), section_of(grid_idx@, k)),
                forall|k: int| 0 <= k < 3 ==> (#[trigger] inner_idxs[k])@ == inner_of(grid_idx@, k),
                outcome_view(result) == acc,
                result is Ok,
                acc == grid_partial(self@, grid_idx@, s as int),
            decreases 3 - s,
        {
            let section_result = sections[s].unique_candidate(inner_idxs[s]);
            proof {
                acc = combine_outcomes(acc, outcome_view(section_result));
            }
            match (result, section_result) {
                (_, Ok(None)) => {},
                (Ok(None), Ok(Some(_))) => {
                    result = section_result;
                },
                (Ok(Some(a)), Ok(Some(b))) => {
                    if a.value() != b.value() {
                        proof {
                            lemma_outcome_absorbs(self@, grid_idx@, s as int + 1);
                        }
                        return Err(CandidateError::MultipleUniqueCandidates);
                    }
                },
                _ => {
                    proof {
                        lemma_outcome_absorbs(self@, grid_idx@, s as int + 1);
                    }
                    return Err(CandidateError::MultipleUniqueCandidates);
                },
            }
            s = s + 1;
        }
        proof {
            lemma_outcome_partial(self@, grid_idx@);
        }
        result
    }
}

/// The combined outcome over the first `s` sections of the cell at `p`.
pub open spec fn grid_partial(g: Seq<u16>, p: int, s: int) -> Result<Option<int>, CandidateError>
    decreases s,
{
    if s <= 0 {
        Ok(None)
    } else {
        combine_outcomes(
            grid_partial(g, p, s - 1),
            section_outcome(section_words(g, kind_of(s - 1), section_of(p, s - 1)), inner_of(p, s - 1)),
        )
    }
}

/// Once the partial outcome is an inconsistency, the full outcome is that inconsistency.
proof fn lemma_outcome_absorbs(g: Seq<u16>, p: int, s: int)
    requires
        1 <= s <= 3,
        grid_partial(g, p, s) == Err::<Option<int>, CandidateError>(CandidateError::MultipleUniqueCandidates),
    ensures
        grid_outcome(g, p) == Err::<Option<int>, CandidateError>(CandidateError::MultipleUniqueCandidates),
    decreases 3 - s,
{
    if s < 3 {
        lemma_outcome_absorbs(g, p, s + 1);
    } else {
        lemma_outcome_partial(g, p);
    }
}

/// The combined outcome over all three sections is the cell's outcome.
proof fn lemma_outcome_partial(g: Seq<u16>, p: int)
    ensures
        grid_outcome(g, p) == grid_partial(g, p, 3),
{
    reveal_with_fuel(grid_partial, 4);
}

/// Splits `x` into quotient `q` and remainder `r` by `d`.
pub(crate) proof fn lemma_split(x: int, d: int, q: int, r: int)
    requires
        d > 0,
        0 <= r < d,
        x == q * d + r,
    ensures
        x / d == q,
        x % d == r,
{
    lemma_fundamental_div_mod_converse(x, d, q, r);
}

/// The cell at position `p` is the cell of grid row `r` and column `c`.
pub(crate) proof fn lemma_row_col(p: int, r: int, c: int)
    requires
        0 <= r < 9,
        0 <= c < 9,
        p == 9 * r + c,
    ensures
        0 <= p < 81,
        p / 9 == r,
        p % 9 == c,
        box_of(p) == 3 * (r / 3) + c / 3,
        box_inner_of(p) == 3 * (r % 3) + c % 3,
{
    lemma_split(p, 9, r, c);
}

/// The `j`-th cell of box `b` lies in box `b` at place `j`.
pub(crate) proof fn lemma_box_cell(b: int, j: int)
    requires
        0 <= b < 9,
        0 <= j < 9,
    ensures
        0 <= section_pos(SectionKind::Box, b, j) < 81,
        box_of(section_pos(SectionKind::Box, b, j)) == b,
        box_inner_of(section_pos(SectionKind::Box, b, j)) == j,
        section_pos(SectionKind::Box, b, j) / 9 == 3 * (b / 3) + j / 3,
        section_pos(SectionKind::Box, b, j) % 9 == 3 * (b % 3) + j % 3,
{
    let (br, bc) = (b / 3, b % 3);
    let (jr, jc) = (j / 3, j % 3);
    lemma_split(b, 3, br, bc);
    lemma_split(j, 3, jr, jc);
    let r = 3 * br + jr;
    let c = 3 * bc + jc;
    lemma_row_col(section_pos(SectionKind::Box, b, j), r, c);
    lemma_split(r, 3, br, jr);
    lemma_split(c, 3, bc, jc);
}

/// The `j`-th cell of line `s` of the given kind lies in that line at place `j`.
pub(crate) proof fn lemma_line_cell(kind: SectionKind, s: int, j: int)
    requires
        kind != SectionKind::Box,
        0 <= s < 9,
        0 <= j < 9,
    ensures
        0 <= section_pos(kind, s, j) < 81,
        kind == SectionKind::Row ==> section_pos(kind, s, j) / 9 == s && section_pos(kind, s, j) % 9 == j,
        kind == SectionKind::Column ==> section_pos(kind, s, j) % 9 == s && section_pos(kind, s, j) / 9 == j,
{
    if kind == SectionKind::Row {
        lemma_row_col(section_pos(kind, s, j), s, j);
    } else {
        lemma_row_col(section_pos(kind, s, j), j, s);
    }
}

/// The filters of a known cell reach exactly the other cells of its sections: the `k`-th
/// other cell of section `s` of the cell at `p` lies in that same section and is not `p`,
/// and distinct `k` give distinct cells.
pub proof fn lemma_siblings(p: int, s: int, k: int, k2: int)
    requires
        0 <= p < 81,
        0 <= s < 3,
        0 <= k < 8,
        0 <= k2 < 8,
    ensures
        0 <= sibling_pos(p, s, k) < 81,
        sibling_pos(p, s, k) != p,
        section_of(sibling_pos(p, s, k), s) == section_of(p, s),
        k != k2 ==> sibling_pos(p, s, k) != sibling_pos(p, s, k2),
{
    let r = p / 9;
    let c = p % 9;
    lemma_row_col(p, r, c);
    let i = inner_of(p, s);
    let j = skip_index(k, i);
    let j2 = skip_index(k2, i);
    let sec = section_of(p, s);
    if s == 2 {
        lemma_split(r, 3, r / 3, r % 3);
        lemma_split(c, 3, c / 3, c % 3);
        lemma_box_cell(sec, j);
        lemma_box_cell(sec, j2);
        lemma_box_cell(sec, i);
        lemma_split(sec, 3, r / 3, c / 3);
        lemma_split(i, 3, r % 3, c % 3);
        lemma_row_col(section_pos(SectionKind::Box, sec, i), 3 * (r / 3) + r % 3, 3 * (c / 3) + c % 3);
    } else {
        lemma_line_cell(kind_of(s), sec, j);
        lemma_line_cell(kind_of(s), sec, j2);
    }
}

/// Applying the same filter twice leaves the board as applying it once.
pub proof fn lemma_filter_idempotent(g: Grid, f: Filter)
    ensures
        filtered(filtered(g@, f), f) == filtered(g@, f),
{
    let i = f.idx@;
    let w = g@[i];
    let m = f.mask@;
    lemma_clear_twice(w, m);
    assert(filtered(filtered(g@, f), f) =~= filtered(g@, f));
}

/// After applying filters, every cell's candidates are among its candidates before, and
/// its known flag and unused high bits are unchanged.
pub proof fn lemma_filters_monotone(g: Grid, fs: Seq<Filter>)
    ensures
        filtered_all(g@, fs).len() == 81,
        forall|p: int, d: int| 0 <= p < 81 && #[trigger] has_digit(filtered_all(g@, fs)[p], d) ==> has_digit(g@[p], d),
        forall|p: int| 0 <= p < 81 ==> (#[trigger] filtered_all(g@, fs)[p]) & 1 == g@[p] & 1,
        forall|p: int| 0 <= p < 81 ==> (#[trigger] filtered_all(g@, fs)[p]) >> 10 == g@[p] >> 10,
    decreases fs.len(),
{
    if fs.len() > 0 {
        lemma_filters_monotone(g, fs.drop_last());
        let prev = filtered_all(g@, fs.drop_last());
        let f = fs.last();
        let i = f.idx@;
        lemma_digit_ops(prev[i], f.mask@);
        CellMask::lemma_within_candidates(f.mask);
        crate::word::lemma_clear_keeps_flags(prev[i], f.mask@);
    }
}

/// Two filters applied in either order give the same board.
pub proof fn lemma_filters_commute(g: Grid, f1: Filter, f2: Filter)
    ensures
        filtered(filtered(g@, f1), f2) == filtered(filtered(g@, f2), f1),
{
    let a = filtered(filtered(g@, f1), f2);
    let b = filtered(filtered(g@, f2), f1);
    if f1.idx@ == f2.idx@ {
        lemma_clear_swap(g@[f1.idx@], f1.mask@, f2.mask@);
    }
    assert(a =~= b);
}

proof fn lemma_clear_twice(w: u16, m: u16)
    by (bit_vector)
    ensures
        (w & !m) & !m == w & !m,
{
}

proof fn lemma_clear_swap(w: u16, a: u16, b: u16)
    by (bit_vector)
    ensures
        (w & !a) & !b == (w & !b) & !a,
{
}

impl Default for Grid {
    /// The board with every cell unknown and holding all nine candidates.
    fn default() -> (r: Grid)
        ensures
            forall|p: int| 0 <= p < 81 ==> #[trigger] r@[p] == ALL_CANDIDATES,
    {
        let c = Cell::default();
        Grid([c; 81])
    }
}

} // verus!
