//! One cell of the grid: a known flag and nine candidate bits in a 16-bit word.
use vstd::prelude::*;

use crate::num::Num;
use crate::text::{digit_char, digit_to_char, string_from_chars};
use crate::word::{
    candidate_count, digit_bit, digits_below, has_banned_bits, has_digit, known_flag,
    lemma_all_candidate_digits, lemma_and_all, lemma_clear_keeps_flags, lemma_count_same,
    lemma_count_single, lemma_digit_bit, lemma_digit_ops, lemma_mask_exact, lemma_or_within,
    lemma_set_flag, lemma_zero_no_digit, ALL_CANDIDATES,
};

verus! {

broadcast use Num::lemma_range;

/// A cell of the grid, wrapping its 16-bit word.
///
/// Bit 0 is the known flag, bits 1 to 9 are the candidates for the digits 1 to 9, and
/// bits 10 to 15 are unused and must be clear. Any word can be held; [`Cell::check`]
/// tells whether it is a valid cell.
#[derive(Debug, Clone, Copy, PartialEq, Eq, Structural)]
pub struct Cell(u16);

/// What is wrong with a cell, or with the grid around it.
#[derive(Debug, Clone, Copy, PartialEq, Eq, Structural)]
pub enum CandidateError {
    /// Bits above the candidate bits are set.
    BannedBits,
    /// The known flag is set but no candidate is.
    KnownNoNum,
    /// The known flag is set together with several candidates.
    KnownMultipleNum,
    /// The cell is unknown and has no candidate left.
    NoCandidates,
    /// A cell holds more than one candidate that no other cell of a section can take,
    /// or its sections force different digits on it.
    MultipleUniqueCandidates,
}

/// The outcome of checking the word `w`.
pub open spec fn check_word(w: u16) -> Result<(), CandidateError> {
    if has_banned_bits(w) {
        Err(CandidateError::BannedBits)
    } else if known_flag(w) {
        if candidate_count(w) == 0 {
            Err(CandidateError::KnownNoNum)
        } else if candidate_count(w) > 1 {
            Err(CandidateError::KnownMultipleNum)
        } else {
            Ok(())
        }
    } else if candidate_count(w) == 0 {
        Err(CandidateError::NoCandidates)
    } else {
        Ok(())
    }
}

/// The invariants of a cell word: the unused bits are clear, a known cell has exactly one
/// candidate, and an unknown cell has at least one.
pub open spec fn valid_word(w: u16) -> bool {
    &&& !has_banned_bits(w)
    &&& known_flag(w) ==> candidate_count(w) == 1
    &&& !known_flag(w) ==> candidate_count(w) >= 1
}

/// The largest candidate digit of `w` below `k`, or `0` if there is none.
pub open spec fn top_digit_below(w: u16, k: int) -> int
    decreases k,
{
    if k <= 1 {
        0
    } else if has_digit(w, k - 1) {
        k - 1
    } else {
        top_digit_below(w, k - 1)
    }
}

/// The digit a known cell shows: its largest candidate, or `0` when it has none.
pub open spec fn shown_digit(w: u16) -> int {
    top_digit_below(w, 10)
}

/// The characters of the candidate digits of `w` below `k`, in increasing order.
pub open spec fn candidate_text(w: u16, k: int) -> Seq<char>
    decreases k,
{
    if k <= 1 {
        seq![]
    } else if has_digit(w, k - 1) {
        candidate_text(w, k - 1).push(digit_char(k - 1))
    } else {
        candidate_text(w, k - 1)
    }
}

/// The text of a cell word: the digit of a known cell, or the candidates of an unknown
/// cell in increasing order between braces.
pub open spec fn cell_text(w: u16) -> Seq<char> {
    if known_flag(w) {
        seq![digit_char(shown_digit(w))]
    } else {
        seq!['{'] + candidate_text(w, 10) + seq!['}']
    }
}

/// Counts the candidate bits of `w`.
pub(crate) fn count_digits(w: u16) -> (r: u8)
    ensures
        r == candidate_count(w),
{
    let mut c: u8 = 0;
    let mut d: u16 = 1;
    while d < 10
        invariant
            1 <= d <= 10,
            c == digits_below(w, d as int),
            c < d,
        decreases 10 - d,
    {
        if (w >> d) & 1 == 1 {
            c = c + 1;
        }
        d = d + 1;
    }
    c
}

/// Finds the largest candidate digit of `w`, or `0`.
pub(crate) fn top_digit(w: u16) -> (r: u8)
    ensures
        r == shown_digit(w),
        r <= 9,
{
    let mut d: u16 = 9;
    while d > 0
        invariant
            d <= 9,
            forall|e: int| d < e <= 9 ==> !has_digit(w, e),
            top_digit_below(w, 10) == top_digit_below(w, d as int + 1),
        decreases d,
    {
        if (w >> d) & 1 == 1 {
            return d as u8;
        }
        d = d - 1;
    }
    0
}

impl Cell {
    /// The cell's word.
    pub closed spec fn view(self) -> u16 {
        self.0
    }

    /// Checks the invariants of the cell's word and reports the first one broken: banned
    /// bits, then a known cell's candidate count, then an unknown cell without candidates.
    pub fn check(self) -> (r: Result<(), CandidateError>)
        ensures
            r == check_word(self@),
            r is Ok <==> valid_word(self@),
    {
        if self.0 >= 1024 {
            return Err(CandidateError::BannedBits);
        }
        let count = count_digits(self.0);
        if self.0 & 1 == 1 {
            if count == 0 {
                Err(CandidateError::KnownNoNum)
            } else if count > 1 {
                Err(CandidateError::KnownMultipleNum)
            } else {
                Ok(())
            }
        } else if count == 0 {
            Err(CandidateError::NoCandidates)
        } else {
            Ok(())
        }
    }

    /// Creates a cell from a word, failing with the error that [`Cell::check`] reports.
    pub fn new(n: u16) -> (r: Result<Cell, CandidateError>)
        ensures
            r is Ok <==> valid_word(n),
            r matches Ok(c) ==> c@ == n,
            r matches Err(e) ==> check_word(n) == Err::<(), CandidateError>(e),
    {
        let cell = Cell(n);
        match cell.check() {
            Ok(()) => Ok(cell),
            Err(e) => Err(e),
        }
    }

    /// Creates a cell from any word, without checking it.
    pub fn new_unchecked(n: u16) -> (r: Cell)
        ensures
            r@ == n,
    {
        Cell(n)
    }

    /// The known cell holding the digit `n`.
    pub fn new_known(n: Num) -> (r: Cell)
        ensures
            r@ == digit_bit(n@) | 1,
            known_flag(r@),
            forall|d: int| #[trigger] has_digit(r@, d) <==> d == n@,
            candidate_count(r@) == 1,
            valid_word(r@),
            shown_digit(r@) == n@,
    {
        let v = n.value();
        proof {
            lemma_digit_bit(n@);
            lemma_count_single(digit_bit(n@) | 1, n@, 10);
            lemma_top_single(digit_bit(n@) | 1, n@, 10);
        }
        Cell((1u16 << v) | 1)
    }

    /// The cell as text: the digit of a known cell, or `{` and `}` around the candidates of
    /// an unknown cell, in increasing order.
    pub fn to_string(&self) -> (r: String)
        ensures
            r@ == cell_text(self@),
    {
        let mut out: Vec<char> = Vec::new();
        if self.0 & 1 == 1 {
            out.push(digit_to_char(top_digit(self.0)));
        } else {
            out.push('{');
            let mut d: u16 = 1;
            while d < 10
                invariant
                    1 <= d <= 10,
                    out@ == seq!['{'] + candidate_text(self.0, d as int),
                decreases 10 - d,
            {
                if (self.0 >> d) & 1 == 1 {
                    out.push(digit_to_char(d as u8));
                }
                proof {
                    assert(out@ =~= seq!['{'] + candidate_text(self.0, d as int + 1));
                }
                d = d + 1;
            }
            out.push('}');
        }
        proof {
            assert(out@ =~= cell_text(self@));
        }
        string_from_chars(&out)
    }

    /// The word of an unknown cell with no candidates; only meant as the start of an
    /// accumulation.
    pub fn zeroed() -> (r: Cell)
        ensures
            r@ == 0,
    {
        Cell(0)
    }

    /// The cell's word.
    pub fn to_u16(self) -> (r: u16)
        ensures
            r == self@,
    {
        self.0
    }

    /// Whether the known flag is set.
    pub fn is_known(self) -> (r: bool)
        ensures
            r == known_flag(self@),
    {
        self.0 & 1 == 1
    }

    /// The single-candidate finder: the digit of an unknown cell that has exactly one
    /// candidate left. Known cells and cells with other counts give `None`; the unused
    /// high bits play no part.
    pub fn single_candidate(self) -> (r: Option<Num>)
        ensures
            r is Some <==> (!known_flag(self@) && candidate_count(self@) == 1),
            r matches Some(n) ==> has_digit(self@, n@),
    {
        if self.0 & 1 == 1 {
            return None;
        }
        let count = count_digits(self.0);
        if count != 1 {
            return None;
        }
        let d = top_digit(self.0);
        proof {
            lemma_top_digit(self.0, 10);
        }
        Some(Num::new_unchecked(d))
    }

    /// The candidates common to both cells (a bitwise `&` of the words).
    pub fn intersection(self, other: Cell) -> (r: Cell)
        ensures
            r@ == self@ & other@,
            forall|d: int| #[trigger] has_digit(r@, d) <==> (has_digit(self@, d) && has_digit(other@, d)),
    {
        proof {
            lemma_digit_ops(self.0, other.0);
        }
        Cell(self.0 & other.0)
    }

    /// The candidates of either cell (a bitwise `|` of the words).
    pub fn union(self, other: Cell) -> (r: Cell)
        ensures
            r@ == self@ | other@,
            forall|d: int| #[trigger] has_digit(r@, d) <==> (has_digit(self@, d) || has_digit(other@, d)),
    {
        proof {
            lemma_digit_ops(self.0, other.0);
        }
        Cell(self.0 | other.0)
    }

    /// The candidates of exactly one of the cells (a bitwise `^` of the words).
    pub fn symmetric_difference(self, other: Cell) -> (r: Cell)
        ensures
            r@ == self@ ^ other@,
            forall|d: int| #[trigger] has_digit(r@, d) <==> (1 <= d <= 9 && has_digit(self@, d) != has_digit(other@, d)),
    {
        proof {
            lemma_digit_ops(self.0, other.0);
        }
        Cell(self.0 ^ other.0)
    }

    /// Flips the nine candidate bits and nothing else. The result is meant for mask
    /// arithmetic: it may have no candidate at all.
    pub fn complement_candidates(self) -> (r: Cell)
        ensures
            r@ == self@ ^ ALL_CANDIDATES,
            forall|d: int| #[trigger] has_digit(r@, d) <==> (1 <= d <= 9 && !has_digit(self@, d)),
            known_flag(r@) == known_flag(self@),
            has_banned_bits(r@) == has_banned_bits(self@),
    {
        proof {
            lemma_digit_ops(self.0, ALL_CANDIDATES);
            lemma_all_candidate_digits();
            lemma_flip_keeps_flags(self.0);
        }
        Cell(self.0 ^ ALL_CANDIDATES)
    }

    /// Sets the known flag, promoting a cell with one candidate left to a known cell.
    pub fn set_known_bit(&mut self)
        requires
            valid_word(old(self)@),
            candidate_count(old(self)@) == 1,
        ensures
            final(self)@ == old(self)@ | 1,
            known_flag(final(self)@),
            forall|d: int| #[trigger] has_digit(final(self)@, d) == has_digit(old(self)@, d),
            valid_word(final(self)@),
    {
        proof {
            lemma_set_flag(self.0);
            lemma_count_same(self.0 | 1, self.0, 10);
        }
        self.0 = self.0 | 1;
    }

    /// Adds the candidates of `mask` to the cell.
    pub fn set_candidates(&mut self, mask: CellMask)
        ensures
            final(self)@ == old(self)@ | mask@,
            forall|d: int| #[trigger] has_digit(final(self)@, d) == (has_digit(old(self)@, d) || has_digit(mask@, d)),
            known_flag(final(self)@) == known_flag(old(self)@),
            has_banned_bits(final(self)@) == has_banned_bits(old(self)@),
    {
        let m = mask.to_u16();
        proof {
            lemma_digit_ops(self.0, m);
            CellMask::lemma_within_candidates(mask);
            lemma_clear_keeps_flags(self.0, m);
        }
        self.0 = self.0 | m;
    }

    /// Removes the candidates of `mask` from the cell; the known flag and the unused bits
    /// stay as they are.
    pub fn remove_candidates(&mut self, mask: CellMask)
        ensures
            final(self)@ == old(self)@ & !mask@,
            forall|d: int| #[trigger] has_digit(final(self)@, d) == (has_digit(old(self)@, d) && !has_digit(mask@, d)),
            known_flag(final(self)@) == known_flag(old(self)@),
            has_banned_bits(final(self)@) == has_banned_bits(old(self)@),
    {
        let m = mask.to_u16();
        proof {
            lemma_digit_ops(self.0, m);
            CellMask::lemma_within_candidates(mask);
            lemma_clear_keeps_flags(self.0, m);
        }
        self.0 = self.0 & !m;
    }
}

proof fn lemma_flip_keeps_flags(a: u16)
    by (bit_vector)
    ensures
        (a ^ 0x3feu16) & 1 == a & 1,
        ((a ^ 0x3feu16) >= 1024) == (a >= 1024),
{
}

/// The largest digit below `k` is a candidate, and none above it below `k` is.
pub(crate) proof fn lemma_top_digit(w: u16, k: int)
    requires
        k <= 10,
    ensures
        top_digit_below(w, k) == 0 || (1 <= top_digit_below(w, k) < k && has_digit(w, top_digit_below(w, k))),
        top_digit_below(w, k) == 0 ==> digits_below(w, k) == 0,
    decreases k,
{
    if k > 1 {
        lemma_top_digit(w, k - 1);
    }
}

/// A word whose only candidate is `n` shows `n` once `n` is below the bound.
pub(crate) proof fn lemma_top_single(w: u16, n: int, k: int)
    requires
        1 <= n <= 9,
        forall|d: int| 1 <= d <= 9 ==> (has_digit(w, d) <==> d == n),
    ensures
        top_digit_below(w, k) == if n < k { n } else { 0 },
    decreases k,
{
    if k > 1 {
        lemma_top_single(w, n, k - 1);
    }
}

impl Default for Cell {
    /// A fresh unknown cell with all nine candidates.
    fn default() -> (r: Cell)
        ensures
            r@ == ALL_CANDIDATES,
    {
        Cell(ALL_CANDIDATES)
    }
}

/// A set of candidates to remove from a cell; only candidate bits can be set.
#[derive(Debug, Clone, Copy)]
pub struct CellMask(u16);

impl CellMask {
    /// The mask's word.
    pub closed spec fn view(self) -> u16 {
        self.0 & ALL_CANDIDATES
    }

    #[verifier::type_invariant]
    spec fn within_candidates(self) -> bool {
        self.0 & !ALL_CANDIDATES == 0
    }

    /// A mask holds candidate bits only.
    pub proof fn lemma_within_candidates(m: CellMask)
        ensures
            m@ & !ALL_CANDIDATES == 0,
            m@ & 1 == 0,
            m@ < 1024,
    {
        lemma_and_all(m.0);
    }

    /// The mask's word.
    pub fn to_u16(self) -> (r: u16)
        ensures
            r == self@,
    {
        proof {
            use_type_invariant(&self);
            lemma_mask_exact(self.0);
        }
        self.0
    }

    /// Creates a mask from a word, or `None` when a bit outside the candidate bits is set.
    pub fn new(x: u16) -> (r: Option<CellMask>)
        ensures
            r is Some <==> x & !ALL_CANDIDATES == 0,
            r matches Some(m) ==> m@ == x,
    {
        if x & !ALL_CANDIDATES == 0 {
            proof {
                lemma_mask_exact(x);
            }
            Some(CellMask(x))
        } else {
            None
        }
    }

    /// Creates a mask from a word that the caller knows to hold candidate bits only.
    pub fn new_unchecked(x: u16) -> (r: CellMask)
        requires
            x & !ALL_CANDIDATES == 0,
        ensures
            r@ == x,
    {
        proof {
            lemma_mask_exact(x);
        }
        CellMask(x)
    }

    /// The mask holding the single candidate `num`.
    pub fn from_known(num: Num) -> (r: CellMask)
        ensures
            r@ == digit_bit(num@),
            forall|d: int| #[trigger] has_digit(r@, d) <==> d == num@,
    {
        let v = num.value();
        proof {
            lemma_digit_bit(num@);
        }
        CellMask::new_unchecked(1u16 << v)
    }

    /// The mask holding each of the given digits.
    pub fn from_candidates(nums: &[Num]) -> (r: CellMask)
        ensures
            forall|d: int| #[trigger] has_digit(r@, d) <==> exists|i: int| 0 <= i < nums@.len() && nums@[i]@ == d,
    {
        let mut x: u16 = 0;
        let mut i: usize = 0;
        proof {
            lemma_zero_no_digit();
        }
        while i < nums.len()
            invariant
                i <= nums@.len(),
                x & !ALL_CANDIDATES == 0,
                forall|d: int| #[trigger] has_digit(x, d) <==> exists|j: int| 0 <= j < i && nums@[j]@ == d,
            decreases nums@.len() - i,
        {
            let v = nums[i].value();
            let b = 1u16 << v;
            proof {
                lemma_digit_bit(v as int);
                lemma_digit_ops(x, b);
                lemma_or_within(x, b);
                assert forall|d: int| #[trigger] has_digit(x | b, d) <==> exists|j: int| 0 <= j < i + 1 && nums@[j]@ == d by {
                    if has_digit(x | b, d) {
                        if !has_digit(b, d) {
                            let j = choose|j: int| 0 <= j < i && nums@[j]@ == d;
                            assert(0 <= j < i + 1 && nums@[j]@ == d);
                        } else {
                            assert(nums@[i as int]@ == d);
                        }
                    }
                    if exists|j: int| 0 <= j < i + 1 && nums@[j]@ == d {
                        let j = choose|j: int| 0 <= j < i + 1 && nums@[j]@ == d;
                        if j < i {
                            assert(has_digit(x, d));
                        } else {
                            assert(has_digit(b, d));
                        }
                    }
                }
            }
            x = x | b;
            i = i + 1;
        }
        CellMask::new_unchecked(x)
    }
}

} // verus!
