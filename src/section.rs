//! Rows, columns and boxes: the 27 sections of nine cells each.
use vstd::prelude::*;

use crate::cell::{count_digits, lemma_top_digit, top_digit, CandidateError, Cell};
use crate::idx::{GridIdx, InnerIdx, SectionIdx};
use crate::num::Num;
use crate::word::{
    digits_below, has_digit, lemma_count_one, lemma_digit_ops, lemma_zero_no_digit,
};

verus! {

broadcast use Num::lemma_range;

/// The kind of a section.
#[derive(Debug, Clone, Copy, PartialEq, Eq, Structural)]
pub enum SectionKind {
    /// A horizontal line of the grid.
    Row,
    /// A vertical line of the grid.
    Column,
    /// A 3x3 box of the grid.
    Box,
}

/// Which section: its kind and its index among the sections of that kind.
#[derive(Debug, Clone, Copy, PartialEq)]
pub struct SectionInfo {
    /// The kind of the section.
    pub kind: SectionKind,
    /// The index of the section among those of its kind.
    pub idx: SectionIdx,
}

/// A copy of the nine cells of one section, with the section they were taken from.
#[derive(Debug, Clone, Copy)]
pub struct Section {
    /// The section the cells were taken from.
    pub info: SectionInfo,
    /// The cells, in the section's inner order.
    pub cells: [Cell; 9],
}

/// The grid position of the `j`-th cell of section `s` of the given kind.
pub open spec fn section_pos(kind: SectionKind, s: int, j: int) -> int {
    match kind {
        SectionKind::Row => 9 * s + j,
        SectionKind::Column => 9 * j + s,
        SectionKind::Box => 27 * (s / 3) + 3 * (s % 3) + 9 * (j / 3) + j % 3,
    }
}

/// Whether `d` is a candidate of cell `i` and of no other cell in `words`.
pub open spec fn unique_in(words: Seq<u16>, i: int, d: int) -> bool {
    &&& has_digit(words[i], d)
    &&& forall|j: int| 0 <= j < words.len() && j != i ==> !has_digit(#[trigger] words[j], d)
}

/// How many of the digits `1..k` are unique to cell `i` in `words`.
pub open spec fn uniques_below(words: Seq<u16>, i: int, k: int) -> nat
    decreases k,
{
    if k <= 1 {
        0
    } else {
        uniques_below(words, i, k - 1) + if unique_in(words, i, k - 1) {
            1nat
        } else {
            0nat
        }
    }
}

/// What the unique-candidate finder reports for cell `i` of a section with cell words
/// `words`: nothing, the one digit unique to the cell, or an inconsistency when several
/// digits are.
pub open spec fn section_outcome(words: Seq<u16>, i: int) -> Result<Option<int>, CandidateError> {
    let c = uniques_below(words, i, 10);
    if c == 0 {
        Ok(None)
    } else if c == 1 {
        Ok(Some(choose|d: int| unique_in(words, i, d)))
    } else {
        Err(CandidateError::MultipleUniqueCandidates)
    }
}

/// A finder's result with its digit as an integer.
pub open spec fn outcome_view(r: Result<Option<Num>, CandidateError>) -> Result<Option<int>, CandidateError> {
    match r {
        Ok(Some(n)) => Ok(Some(n@)),
        Ok(None) => Ok(None),
        Err(e) => Err(e),
    }
}

impl SectionInfo {
    /// Creates a section description.
    pub fn new(kind: SectionKind, idx: SectionIdx) -> (r: SectionInfo)
        ensures
            r.kind == kind,
            r.idx == idx,
    {
        SectionInfo { kind, idx }
    }

    /// The grid positions of the section's nine cells, in inner order.
    pub fn grid_idxs(self) -> (r: [GridIdx; 9])
        ensures
            forall|j: int| 0 <= j < 9 ==> #[trigger] r[j]@ == section_pos(self.kind, self.idx@, j),
    {
        let s = self.idx.to_usize();
        let mut r = [GridIdx::new_unchecked(0); 9];
        let mut j: usize = 0;
        while j < 9
            invariant
                j <= 9,
                s < 9,
                forall|k: int| 0 <= k < j ==> #[trigger] r[k]@ == section_pos(self.kind, s as int, k),
            decreases 9 - j,
        {
            let p = match self.kind {
                SectionKind::Row => 9 * s + j,
                SectionKind::Column => 9 * j + s,
                SectionKind::Box => 27 * (s / 3) + 3 * (s % 3) + 9 * (j / 3) + j % 3,
            };
            r[j] = GridIdx::new_unchecked(p);
            j = j + 1;
        }
        r
    }
}

impl Section {
    /// The words of the section's cells.
    pub open spec fn words(self) -> Seq<u16> {
        self.cells@.map_values(|c: Cell| c@)
    }

    /// Creates a section from its description and its cells.
    pub fn new(info: SectionInfo, cells: [Cell; 9]) -> (r: Section)
        ensures
            r.info == info,
            r.cells == cells,
    {
        Section { info, cells }
    }

    /// The unique-candidate finder: the candidates of the cell at `inner_idx` that no other
    /// cell of the section holds. None gives `Ok(None)`, one gives that digit, and several
    /// give [`CandidateError::MultipleUniqueCandidates`].
    pub fn unique_candidate(&self, inner_idx: InnerIdx) -> (r: Result<Option<Num>, CandidateError>)
        ensures
            outcome_view(r) == section_outcome(self.words(), inner_idx@),
            uniques_below(self.words(), inner_idx@, 10) == 1 ==> (r matches Ok(Some(n)) && unique_in(self.words(), inner_idx@, n@)),
    {
        let i = inner_idx.to_usize();
        let ghost words = self.words();
        let target = self.cells[i].to_u16();
        let mut others: u16 = 0;
        let mut j: usize = 0;
        proof {
            lemma_zero_no_digit();
        }
        while j < 9
            invariant
                j <= 9,
                i < 9,
                words == self.words(),
                forall|d: int| #[trigger] has_digit(others, d) <==> exists|k: int| 0 <= k < j && k != i && has_digit(words[k], d),
            decreases 9 - j,
        {
            if j != i {
                let w = self.cells[j].to_u16();
                proof {
                    lemma_digit_ops(others, w);
                    assert forall|d: int| #[trigger] has_digit(others | w, d) <==> exists|k: int| 0 <= k < j + 1 && k != i && has_digit(words[k], d) by {
                        if has_digit(others | w, d) && !has_digit(w, d) {
                            let k = choose|k: int| 0 <= k < j && k != i && has_digit(words[k], d);
                            assert(0 <= k < j + 1 && k != i && has_digit(words[k], d));
                        }
                        if has_digit(w, d) {
                            assert(words[j as int] == w);
                        }
                    }
                }
                others = others | w;
            } else {
                proof {
                    assert forall|d: int| #[trigger] has_digit(others, d) <==> exists|k: int| 0 <= k < j + 1 && k != i && has_digit(words[k], d) by {
                        if exists|k: int| 0 <= k < j + 1 && k != i && has_digit(words[k], d) {
                            let k = choose|k: int| 0 <= k < j + 1 && k != i && has_digit(words[k], d);
                            assert(0 <= k < j && k != i && has_digit(words[k], d));
                        }
                    }
                }
            }
            j = j + 1;
        }
        let unique = target & !others;
        proof {
            lemma_digit_ops(target, others);
            assert forall|d: int| #[trigger] has_digit(unique, d) <==> unique_in(words, i as int, d) by {
                if has_digit(unique, d) {
                    assert forall|k: int| 0 <= k < words.len() && k != i implies !has_digit(#[trigger] words[k], d) by {
                        if has_digit(words[k], d) {
                            assert(exists|k2: int| 0 <= k2 < 9 && k2 != i && has_digit(words[k2], d));
                        }
                    }
                }
            }
            lemma_uniques_match(words, i as int, unique, 10);
        }
        let count = count_digits(unique);
        if count == 0 {
            Ok(None)
        } else if count == 1 {
            let d = top_digit(unique);
            proof {
                lemma_top_digit(unique, 10);
                let c = choose|e: int| unique_in(words, i as int, e);
                lemma_count_one(unique, 10, c, d as int);
            }
            Ok(Some(Num::new_unchecked(d)))
        } else {
            Err(CandidateError::MultipleUniqueCandidates)
        }
    }
}

/// A word whose digits are exactly the unique digits has their count.
proof fn lemma_uniques_match(words: Seq<u16>, i: int, w: u16, k: int)
    requires
        forall|d: int| #[trigger] has_digit(w, d) <==> unique_in(words, i, d),
    ensures
        digits_below(w, k) == uniques_below(words, i, k),
    decreases k,
{
    if k > 1 {
        lemma_uniques_match(words, i, w, k - 1);
    }
}

} // verus!
