//! Bands of three boxes folded into lanes, and the single-line and double-line techniques.
use vstd::prelude::*;

use crate::cell::CellMask;
use crate::filter::Filter;
use crate::grid::{lemma_box_cell, lemma_split, Grid};
use crate::idx::{area_box, box_of, AreaIdx, GridIdx, Idx};
use crate::section::{section_pos, SectionInfo, SectionKind};
use crate::word::{
    has_digit, known_flag, lemma_all_candidate_digits, lemma_and_all, lemma_digit_ops,
    lemma_mask_exact, lemma_or_within, lemma_zero_no_digit, ALL_CANDIDATES,
};

verus! {

broadcast use Idx::lemma_range, Grid::lemma_len;

/// A band of three boxes, each folded into three lanes: its rows for a horizontal band, its
/// columns for a vertical one. Each lane holds the `|` of its three cells' words. Beside the
/// folds it keeps, per box, the digits of its known cells (the `|` of their candidate bits,
/// known flag clear), and per lane a mask of candidates found to be removable.
pub struct FoldedArea {
    folds: [u16; 9],
    masks: [u16; 9],
    known: [u16; 3],
    idx: AreaIdx,
}

/// How many of the three lane words have digit `d`.
pub open spec fn lanes_with(x: u16, y: u16, z: u16, d: int) -> int {
    (if has_digit(x, d) { 1int } else { 0int }) + (if has_digit(y, d) { 1int } else { 0int }) + (
    if has_digit(z, d) { 1int } else { 0int })
}

/// The word whose candidate bits mark the digits found in exactly `n` of the three lanes,
/// built from `&`, `|` and `^` alone.
pub open spec fn count_word(n: int, x: u16, y: u16, z: u16) -> u16 {
    let and = x & y & z;
    let xor = x ^ y ^ z;
    let or = x | y | z;
    if n == 0 {
        or ^ ALL_CANDIDATES
    } else if n == 1 {
        xor & (and ^ ALL_CANDIDATES)
    } else if n == 2 {
        or & (xor ^ ALL_CANDIDATES)
    } else {
        and
    }
}

/// The position within its box of the cell at offset `t` of lane `l`, for a band of
/// index `a`.
pub open spec fn lane_inner(a: int, l: int, t: int) -> int {
    if a < 3 {
        3 * t + l
    } else {
        3 * l + t
    }
}

/// The grid position of the cell at offset `t` of lane `l` of the `b`-th box of band `a`.
pub open spec fn area_cell_pos(a: int, b: int, l: int, t: int) -> int {
    section_pos(SectionKind::Box, area_box(a, b), lane_inner(a, l, t))
}

/// The `|` of the candidate bits of the known cells among the first `j` cells of box `s`
/// of `g`: the digits known in the box, with the known flag clear.
pub open spec fn known_or(g: Seq<u16>, s: int, j: int) -> u16
    decreases j,
{
    if j <= 0 {
        0
    } else {
        let w = g[section_pos(SectionKind::Box, s, j - 1)];
        known_or(g, s, j - 1) | if known_flag(w) {
            w & ALL_CANDIDATES
        } else {
            0
        }
    }
}

/// Lane `l` of the `b`-th box of band `a` of the board `g`: the `|` of its three words.
pub open spec fn band_fold(g: Seq<u16>, a: int, b: int, l: int) -> u16 {
    g[area_cell_pos(a, b, l, 0)] | g[area_cell_pos(a, b, l, 1)] | g[area_cell_pos(a, b, l, 2)]
}

/// The digits known in the `b`-th box of band `a` of `g`.
pub open spec fn band_known(g: Seq<u16>, a: int, b: int) -> u16 {
    known_or(g, area_box(a, b), 9)
}

/// How many lanes of the `b`-th box of band `a` of `g` have digit `d`.
pub open spec fn band_lanes(g: Seq<u16>, a: int, b: int, d: int) -> int {
    lanes_with(band_fold(g, a, b, 0), band_fold(g, a, b, 1), band_fold(g, a, b, 2), d)
}

/// In band `a` of `g`, the `b`-th box holds `d`, not known there, in lane `l` only.
pub open spec fn band_single_at(g: Seq<u16>, a: int, b: int, l: int, d: int) -> bool {
    &&& band_lanes(g, a, b, d) == 1
    &&& has_digit(band_fold(g, a, b, l), d)
    &&& !has_digit(band_known(g, a, b), d)
}

/// In band `a` of `g`, boxes `x` and `y` hold `d` in exactly two lanes, both missing lane `r`.
pub open spec fn band_double_at(g: Seq<u16>, a: int, x: int, y: int, r: int, d: int) -> bool {
    &&& band_lanes(g, a, x, d) == 2
    &&& band_lanes(g, a, y, d) == 2
    &&& !has_digit(band_fold(g, a, x, r), d)
    &&& !has_digit(band_fold(g, a, y, r), d)
}

/// Single-line projection on band `a` of `g` removes `d` from lane `l` of box `c`.
pub open spec fn band_single_removes(g: Seq<u16>, a: int, c: int, l: int, d: int) -> bool {
    &&& has_digit(band_fold(g, a, c, l), d)
    &&& exists|b: int| 0 <= b < 3 && b != c && #[trigger] band_single_at(g, a, b, l, d)
}

/// Double-line projection on band `a` of `g` removes `d` from lane `l` of box `t`.
pub open spec fn band_double_removes(g: Seq<u16>, a: int, t: int, l: int, d: int) -> bool {
    &&& has_digit(band_fold(g, a, t, l), d)
    &&& exists|r: int| 0 <= r < 3 && r != l && #[trigger] band_double_at(g, a, other(t, 0), other(t, 1), r, d)
}

/// Neither single-line nor double-line projection removes anything from band `a` of `g`.
pub open spec fn band_settled(g: Seq<u16>, a: int) -> bool {
    &&& forall|c: int, l: int, d: int| 0 <= c < 3 && 0 <= l < 3 ==> !#[trigger] band_single_removes(g, a, c, l, d)
    &&& forall|c: int, l: int, d: int| 0 <= c < 3 && 0 <= l < 3 ==> !#[trigger] band_double_removes(g, a, c, l, d)
}

/// A folded band that matches band `a` of `g` removes what the band's projection removes.
pub proof fn lemma_band_removes(g: Seq<u16>, fa: FoldedArea)
    requires
        forall|b: int, l: int| 0 <= b < 3 && 0 <= l < 3 ==> #[trigger] fa.fold(b, l) == band_fold(g, fa.area(), b, l),
        forall|b: int| 0 <= b < 3 ==> #[trigger] fa.known(b) == band_known(g, fa.area(), b),
    ensures
        forall|c: int, l: int, d: int| 0 <= c < 3 && 0 <= l < 3 ==> (#[trigger] fa.single_line_removes(c, l, d)
            <==> band_single_removes(g, fa.area(), c, l, d)),
        forall|c: int, l: int, d: int| 0 <= c < 3 && 0 <= l < 3 ==> (#[trigger] fa.double_line_removes(c, l, d)
            <==> band_double_removes(g, fa.area(), c, l, d)),
{
    let a = fa.area();
    assert forall|b: int, l: int, d: int| 0 <= b < 3 && 0 <= l < 3 implies (#[trigger] fa.single_line_at(b, l, d)
        <==> band_single_at(g, a, b, l, d)) by {
        assert(fa.fold(b, 0) == band_fold(g, a, b, 0));
        assert(fa.fold(b, 1) == band_fold(g, a, b, 1));
        assert(fa.fold(b, 2) == band_fold(g, a, b, 2));
    }
    assert forall|x: int, y: int, r: int, d: int| 0 <= x < 3 && 0 <= y < 3 && 0 <= r < 3 implies (#[trigger] fa.double_line_at(x, y, r, d)
        <==> band_double_at(g, a, x, y, r, d)) by {
        assert(fa.fold(x, 0) == band_fold(g, a, x, 0));
        assert(fa.fold(x, 1) == band_fold(g, a, x, 1));
        assert(fa.fold(x, 2) == band_fold(g, a, x, 2));
        assert(fa.fold(y, 0) == band_fold(g, a, y, 0));
        assert(fa.fold(y, 1) == band_fold(g, a, y, 1));
        assert(fa.fold(y, 2) == band_fold(g, a, y, 2));
    }
    assert forall|c: int, l: int, d: int| 0 <= c < 3 && 0 <= l < 3 implies (#[trigger] fa.single_line_removes(c, l, d)
        <==> band_single_removes(g, a, c, l, d)) by {
        if fa.single_line_removes(c, l, d) {
            let b = choose|b: int| 0 <= b < 3 && b != c && #[trigger] fa.single_line_at(b, l, d);
            assert(band_single_at(g, a, b, l, d));
        }
        if band_single_removes(g, a, c, l, d) {
            let b = choose|b: int| 0 <= b < 3 && b != c && #[trigger] band_single_at(g, a, b, l, d);
            assert(fa.single_line_at(b, l, d));
        }
    }
    assert forall|c: int, l: int, d: int| 0 <= c < 3 && 0 <= l < 3 implies (#[trigger] fa.double_line_removes(c, l, d)
        <==> band_double_removes(g, a, c, l, d)) by {
        if fa.double_line_removes(c, l, d) {
            let r = choose|r: int| 0 <= r < 3 && r != l && #[trigger] fa.double_line_at(other(c, 0), other(c, 1), r, d);
            assert(band_double_at(g, a, other(c, 0), other(c, 1), r, d));
        }
        if band_double_removes(g, a, c, l, d) {
            let r = choose|r: int| 0 <= r < 3 && r != l && #[trigger] band_double_at(g, a, other(c, 0), other(c, 1), r, d);
            assert(fa.double_line_at(other(c, 0), other(c, 1), r, d));
        }
    }
}

/// The known word of a box holds candidate bits only.
proof fn lemma_known_or_within(g: Seq<u16>, s: int, j: int)
    ensures
        known_or(g, s, j) & !ALL_CANDIDATES == 0,
    decreases j,
{
    if j <= 0 {
        lemma_zero_no_digit();
    } else {
        lemma_known_or_within(g, s, j - 1);
        let w = g[section_pos(SectionKind::Box, s, j - 1)];
        lemma_and_all(w);
        lemma_zero_no_digit();
        lemma_or_within(known_or(g, s, j - 1), if known_flag(w) { w & ALL_CANDIDATES } else { 0 });
    }
}

/// The two indices in `0..3` other than `k`, in increasing order.
pub open spec fn other(k: int, i: int) -> int {
    if k == 0 {
        i + 1
    } else if k == 1 {
        2 * i
    } else {
        i
    }
}

impl FoldedArea {
    /// Lane `l` of box `b`.
    pub closed spec fn fold(self, b: int, l: int) -> u16 {
        self.folds[3 * b + l]
    }

    /// The removal mask of lane `l` of box `b`.
    pub closed spec fn mask(self, b: int, l: int) -> u16 {
        self.masks[3 * b + l] & ALL_CANDIDATES
    }

    /// The digits known in box `b`, as candidate bits.
    pub closed spec fn known(self, b: int) -> u16 {
        self.known[b]
    }

    /// The band's index.
    pub closed spec fn area(self) -> int {
        self.idx@
    }

    #[verifier::type_invariant]
    spec fn masks_within(self) -> bool {
        forall|k: int| 0 <= k < 9 ==> #[trigger] self.masks[k] & !ALL_CANDIDATES == 0
    }

    /// How many lanes of box `b` have digit `d`.
    pub open spec fn lanes(self, b: int, d: int) -> int {
        lanes_with(self.fold(b, 0), self.fold(b, 1), self.fold(b, 2), d)
    }

    /// Digit `d` is not known in box `b` and lies in lane `l` only.
    pub open spec fn single_line_at(self, b: int, l: int, d: int) -> bool {
        &&& self.lanes(b, d) == 1
        &&& has_digit(self.fold(b, l), d)
        &&& !has_digit(self.known(b), d)
    }

    /// Digit `d` lies in exactly two lanes of box `a` and of box `b`, and both miss it in
    /// lane `r`.
    pub open spec fn double_line_at(self, a: int, b: int, r: int, d: int) -> bool {
        &&& self.lanes(a, d) == 2
        &&& self.lanes(b, d) == 2
        &&& !has_digit(self.fold(a, r), d)
        &&& !has_digit(self.fold(b, r), d)
    }

    /// Single-line projection removes `d` from lane `l` of box `c`: it is there, and another
    /// box of the band holds `d` in lane `l` only.
    pub open spec fn single_line_removes(self, c: int, l: int, d: int) -> bool {
        &&& has_digit(self.fold(c, l), d)
        &&& exists|b: int| 0 <= b < 3 && b != c && #[trigger] self.single_line_at(b, l, d)
    }

    /// Double-line projection removes `d` from lane `l` of box `t`: it is there, and the two
    /// other boxes both hold `d` in exactly the two lanes other than some lane `r != l`.
    pub open spec fn double_line_removes(self, t: int, l: int, d: int) -> bool {
        &&& has_digit(self.fold(t, l), d)
        &&& exists|r: int| 0 <= r < 3 && r != l && #[trigger] self.double_line_at(other(t, 0), other(t, 1), r, d)
    }

    /// `next` has the folds, known words and band of `self`, and each mask of `self` with
    /// exactly the digits added for which `add` holds.
    pub open spec fn masks_grow(self, next: FoldedArea, added: spec_fn(int, int, int) -> bool) -> bool {
        &&& forall|b: int, l: int| 0 <= b < 3 && 0 <= l < 3 ==> #[trigger] next.fold(b, l) == self.fold(b, l)
        &&& forall|b: int| 0 <= b < 3 ==> #[trigger] next.known(b) == self.known(b)
        &&& next.area() == self.area()
        &&& forall|b: int, l: int, d: int| 0 <= b < 3 && 0 <= l < 3 ==> (#[trigger] has_digit(next.mask(b, l), d)
            <==> (has_digit(self.mask(b, l), d) || added(b, l, d)))
    }

    /// Creates a band from its lanes, indexed by box then lane, and the known words of its
    /// boxes; no mask is set.
    pub fn new(folds: [[u16; 3]; 3], known: [u16; 3], idx: AreaIdx) -> (r: FoldedArea)
        ensures
            forall|b: int, l: int| 0 <= b < 3 && 0 <= l < 3 ==> #[trigger] r.fold(b, l) == folds[b][l],
            forall|b: int| 0 <= b < 3 ==> #[trigger] r.known(b) == known[b],
            forall|b: int, l: int| 0 <= b < 3 && 0 <= l < 3 ==> #[trigger] r.mask(b, l) == 0,
            r.area() == idx@,
    {
        proof {
            lemma_zero_no_digit();
        }
        FoldedArea {
            folds: [
                folds[0][0],
                folds[0][1],
                folds[0][2],
                folds[1][0],
                folds[1][1],
                folds[1][2],
                folds[2][0],
                folds[2][1],
                folds[2][2],
            ],
            masks: [0; 9],
            known,
            idx,
        }
    }

    /// For each box, the word marking the digits that lie in exactly `N` of its lanes.
    pub fn count<const N: u8>(&self) -> (r: [u16; 3])
        requires
            N <= 3,
        ensures
            forall|b: int| 0 <= b < 3 ==> #[trigger] r[b] == count_word(N as int, self.fold(b, 0), self.fold(b, 1), self.fold(b, 2)),
            forall|b: int, d: int| 0 <= b < 3 && 1 <= d <= 9 ==> (#[trigger] has_digit(r[b], d) <==> self.lanes(b, d) == N),
    {
        let mut r = [0u16; 3];
        let mut b: usize = 0;
        while b < 3
            invariant
                b <= 3,
                N <= 3,
                forall|k: int| 0 <= k < b ==> #[trigger] r[k] == count_word(N as int, self.fold(k, 0), self.fold(k, 1), self.fold(k, 2)),
            decreases 3 - b,
        {
            let x = self.folds[3 * b];
            let y = self.folds[3 * b + 1];
            let z = self.folds[3 * b + 2];
            let bit_and = x & y & z;
            let bit_xor = x ^ y ^ z;
            let bit_or = x | y | z;
            // flip candidate bits only
            let not_bit_and = bit_and ^ ALL_CANDIDATES;
            let not_bit_xor = bit_xor ^ ALL_CANDIDATES;
            let not_bit_or = bit_or ^ ALL_CANDIDATES;
            r[b] = if N == 0 {
                not_bit_or
            } else if N == 1 {
                bit_xor & not_bit_and
            } else if N == 2 {
                bit_or & not_bit_xor
            } else {
                bit_and
            };
            b = b + 1;
        }
        proof {
            assert forall|b: int, d: int| 0 <= b < 3 && 1 <= d <= 9 implies (#[trigger] has_digit(r[b], d) <==> self.lanes(b, d) == N) by {
                lemma_count_word(self.fold(b, 0), self.fold(b, 1), self.fold(b, 2), d as u16);
            }
        }
        r
    }

    /// The candidate word that single-line projection removes from lane `l` of box `c`.
    fn single_line_word(&self, count_1: &[u16; 3], c: usize, l: usize) -> (r: u16)
        requires
            c < 3,
            l < 3,
            forall|b: int, d: int| 0 <= b < 3 && 1 <= d <= 9 ==> (#[trigger] has_digit(count_1[b], d) <==> self.lanes(b, d) == 1),
        ensures
            r & !ALL_CANDIDATES == 0,
            forall|d: int| #[trigger] has_digit(r, d) <==> self.single_line_removes(c as int, l as int, d),
    {
        let b1 = if c == 0 { 1 } else { 0 };
        let b2 = if c == 2 { 1 } else { 2 };
        let s1 = count_1[b1] & !self.known[b1] & self.folds[3 * b1 + l];
        let s2 = count_1[b2] & !self.known[b2] & self.folds[3 * b2 + l];
        let here = self.folds[3 * c + l];
        let r = here & (s1 | s2) & ALL_CANDIDATES;
        proof {
            lemma_digit_ops(count_1[b1 as int], self.known[b1 as int]);
            lemma_digit_ops(count_1[b1 as int] & !self.known[b1 as int], self.folds[3 * b1 + l]);
            lemma_digit_ops(count_1[b2 as int], self.known[b2 as int]);
            lemma_digit_ops(count_1[b2 as int] & !self.known[b2 as int], self.folds[3 * b2 + l]);
            lemma_digit_ops(s1, s2);
            lemma_digit_ops(here, s1 | s2);
            lemma_digit_ops(here & (s1 | s2), ALL_CANDIDATES);
            lemma_all_candidate_digits();
            lemma_and_all(here & (s1 | s2));
            assert forall|d: int| #[trigger] has_digit(r, d) <==> self.single_line_removes(c as int, l as int, d) by {
                if has_digit(r, d) {
                    if has_digit(s1, d) {
                        assert(self.single_line_at(b1 as int, l as int, d));
                    } else {
                        assert(self.single_line_at(b2 as int, l as int, d));
                    }
                }
                if self.single_line_removes(c as int, l as int, d) {
                    let b = choose|b: int| 0 <= b < 3 && b != c && #[trigger] self.single_line_at(b, l as int, d);
                    if b == b1 {
                        assert(has_digit(s1, d));
                    } else {
                        assert(has_digit(s2, d));
                    }
                }
            }
        }
        r
    }

    /// The candidate word that double-line projection removes from lane `l` of box `t`.
    fn double_line_word(&self, count_2: &[u16; 3], t: usize, l: usize) -> (r: u16)
        requires
            t < 3,
            l < 3,
            forall|b: int, d: int| 0 <= b < 3 && 1 <= d <= 9 ==> (#[trigger] has_digit(count_2[b], d) <==> self.lanes(b, d) == 2),
        ensures
            r & !ALL_CANDIDATES == 0,
            forall|d: int| #[trigger] has_digit(r, d) <==> self.double_line_removes(t as int, l as int, d),
    {
        let a = if t == 0 { 1 } else { 0 };
        let b = if t == 2 { 1 } else { 2 };
        let r1 = if l == 0 { 1 } else { 0 };
        let r2 = if l == 2 { 1 } else { 2 };
        let both = count_2[a] & count_2[b];
        let d1 = both & !self.folds[3 * a + r1] & !self.folds[3 * b + r1];
        let d2 = both & !self.folds[3 * a + r2] & !self.folds[3 * b + r2];
        let here = self.folds[3 * t + l];
        let r = here & (d1 | d2) & ALL_CANDIDATES;
        proof {
            assert(a == other(t as int, 0) && b == other(t as int, 1));
            lemma_digit_ops(count_2[a as int], count_2[b as int]);
            lemma_digit_ops(both, self.folds[3 * a + r1]);
            lemma_digit_ops(both & !self.folds[3 * a + r1], self.folds[3 * b + r1]);
            lemma_digit_ops(both, self.folds[3 * a + r2]);
            lemma_digit_ops(both & !self.folds[3 * a + r2], self.folds[3 * b + r2]);
            lemma_digit_ops(d1, d2);
            lemma_digit_ops(here, d1 | d2);
            lemma_digit_ops(here & (d1 | d2), ALL_CANDIDATES);
            lemma_all_candidate_digits();
            lemma_and_all(here & (d1 | d2));
            assert forall|d: int| #[trigger] has_digit(r, d) <==> self.double_line_removes(t as int, l as int, d) by {
                if has_digit(r, d) {
                    if has_digit(d1, d) {
                        assert(self.double_line_at(a as int, b as int, r1 as int, d));
                    } else {
                        assert(self.double_line_at(a as int, b as int, r2 as int, d));
                    }
                }
                if self.double_line_removes(t as int, l as int, d) {
                    let rr = choose|rr: int| 0 <= rr < 3 && rr != l && #[trigger] self.double_line_at(other(t as int, 0), other(t as int, 1), rr, d);
                    if rr == r1 {
                        assert(has_digit(d1, d));
                    } else {
                        assert(has_digit(d2, d));
                    }
                }
            }
        }
        r
    }

    /// Adds `adds[3 * b + l]` to the mask of lane `l` of box `b`, telling whether any word
    /// added was not empty.
    fn grow_masks(&mut self, adds: [u16; 9]) -> (changed: bool)
        requires
            forall|k: int| 0 <= k < 9 ==> #[trigger] adds[k] & !ALL_CANDIDATES == 0,
        ensures
            old(self).masks_grow(*final(self), |b: int, l: int, d: int| has_digit(adds[3 * b + l], d)),
            changed <==> exists|b: int, l: int, d: int| 0 <= b < 3 && 0 <= l < 3 && #[trigger] has_digit(adds[3 * b + l], d),
    {
        proof {
            use_type_invariant(&*self);
        }
        let ghost start = *self;
        let mut changed = false;
        let mut k: usize = 0;
        while k < 9
            invariant
                k <= 9,
                forall|j: int| 0 <= j < 9 ==> #[trigger] adds[j] & !ALL_CANDIDATES == 0,
                self.folds == start.folds,
                self.known == start.known,
                self.idx == start.idx,
                forall|j: int| 0 <= j < 9 ==> #[trigger] self.masks[j] & !ALL_CANDIDATES == 0,
                forall|j: int| k <= j < 9 ==> #[trigger] self.masks[j] == start.masks[j],
                forall|j: int, d: int| 0 <= j < k ==> (#[trigger] has_digit(self.masks[j] & ALL_CANDIDATES, d)
                    <==> (has_digit(start.masks[j] & ALL_CANDIDATES, d) || has_digit(adds[j], d))),
                changed <==> exists|j: int, d: int| 0 <= j < k && #[trigger] has_digit(adds[j], d),
            decreases 9 - k,
        {
            let m = self.masks[k];
            let a = adds[k];
            proof {
                lemma_or_within(m, a);
                lemma_digit_ops(m, a);
                lemma_digit_ops(m, ALL_CANDIDATES);
                lemma_digit_ops(m | a, ALL_CANDIDATES);
                lemma_all_candidate_digits();
                lemma_nonzero_digit(a);
            }
            self.masks[k] = m | a;
            if a != 0 {
                changed = true;
            }
            k = k + 1;
        }
        proof {
            assert forall|b: int, l: int, d: int| 0 <= b < 3 && 0 <= l < 3 implies (#[trigger] has_digit(self.mask(b, l), d)
                <==> (has_digit(start.mask(b, l), d) || has_digit(adds[3 * b + l], d))) by {
                assert(0 <= 3 * b + l < 9);
            }
            if changed {
                let (j, d) = choose|j: int, d: int| 0 <= j < 9 && #[trigger] has_digit(adds[j], d);
                assert(has_digit(adds[3 * (j / 3) + j % 3], d));
            }
        }
        changed
    }

    /// Single-line projection: a digit that box `b` holds, unknown, in one lane only is
    /// removed from that lane of the other two boxes. Tells whether any removal was
    /// recorded.
    pub fn single_lines(&mut self) -> (updated: bool)
        ensures
            old(self).masks_grow(*final(self), |c: int, l: int, d: int| old(self).single_line_removes(c, l, d)),
            updated <==> exists|c: int, l: int, d: int| 0 <= c < 3 && 0 <= l < 3 && #[trigger] old(self).single_line_removes(c, l, d),
    {
        let count_1 = self.count::<1>();
        let mut adds = [0u16; 9];
        let mut k: usize = 0;
        proof {
            lemma_zero_no_digit();
        }
        while k < 9
            invariant
                k <= 9,
                forall|b: int, d: int| 0 <= b < 3 && 1 <= d <= 9 ==> (#[trigger] has_digit(count_1[b], d) <==> self.lanes(b, d) == 1),
                forall|j: int| 0 <= j < 9 ==> #[trigger] adds[j] & !ALL_CANDIDATES == 0,
                forall|j: int, d: int| 0 <= j < k ==> (#[trigger] has_digit(adds[j], d) <==> self.single_line_removes(j / 3, j % 3, d)),
            decreases 9 - k,
        {
            adds[k] = self.single_line_word(&count_1, k / 3, k % 3);
            k = k + 1;
        }
        proof {
            assert forall|j: int| 0 <= j < 9 implies #[trigger] adds[j] & !ALL_CANDIDATES == 0 by {}
        }
        let ghost before = *self;
        let updated = self.grow_masks(adds);
        proof {
            assert forall|c: int, l: int, d: int| 0 <= c < 3 && 0 <= l < 3 implies #[trigger] has_digit(adds[3 * c + l], d) == before.single_line_removes(c, l, d) by {
                assert((3 * c + l) / 3 == c && (3 * c + l) % 3 == l);
            }
            if updated {
                let (c, l, d) = choose|c: int, l: int, d: int| 0 <= c < 3 && 0 <= l < 3 && #[trigger] has_digit(adds[3 * c + l], d);
                assert(before.single_line_removes(c, l, d));
            }
            if exists|c: int, l: int, d: int| 0 <= c < 3 && 0 <= l < 3 && #[trigger] before.single_line_removes(c, l, d) {
                let (c, l, d) = choose|c: int, l: int, d: int| 0 <= c < 3 && 0 <= l < 3 && #[trigger] before.single_line_removes(c, l, d);
                assert(has_digit(adds[3 * c + l], d));
            }
        }
        updated
    }

    /// Double-line projection: when two boxes hold a digit in exactly the same two lanes,
    /// the third box must hold it in the remaining lane, so it is removed from the third
    /// box's other two lanes. Tells whether any removal was recorded.
    pub fn double_lines(&mut self) -> (updated: bool)
        ensures
            old(self).masks_grow(*final(self), |t: int, l: int, d: int| old(self).double_line_removes(t, l, d)),
            updated <==> exists|t: int, l: int, d: int| 0 <= t < 3 && 0 <= l < 3 && #[trigger] old(self).double_line_removes(t, l, d),
    {
        let count_2 = self.count::<2>();
        let mut adds = [0u16; 9];
        let mut k: usize = 0;
        proof {
            lemma_zero_no_digit();
        }
        while k < 9
            invariant
                k <= 9,
                forall|b: int, d: int| 0 <= b < 3 && 1 <= d <= 9 ==> (#[trigger] has_digit(count_2[b], d) <==> self.lanes(b, d) == 2),
                forall|j: int| 0 <= j < 9 ==> #[trigger] adds[j] & !ALL_CANDIDATES == 0,
                forall|j: int, d: int| 0 <= j < k ==> (#[trigger] has_digit(adds[j], d) <==> self.double_line_removes(j / 3, j % 3, d)),
            decreases 9 - k,
        {
            adds[k] = self.double_line_word(&count_2, k / 3, k % 3);
            k = k + 1;
        }
        let ghost before = *self;
        let updated = self.grow_masks(adds);
        proof {
            assert forall|c: int, l: int, d: int| 0 <= c < 3 && 0 <= l < 3 implies #[trigger] has_digit(adds[3 * c + l], d) == before.double_line_removes(c, l, d) by {
                assert((3 * c + l) / 3 == c && (3 * c + l) % 3 == l);
            }
            if updated {
                let (c, l, d) = choose|c: int, l: int, d: int| 0 <= c < 3 && 0 <= l < 3 && #[trigger] has_digit(adds[3 * c + l], d);
                assert(before.double_line_removes(c, l, d));
            }
            if exists|c: int, l: int, d: int| 0 <= c < 3 && 0 <= l < 3 && #[trigger] before.double_line_removes(c, l, d) {
                let (c, l, d) = choose|c: int, l: int, d: int| 0 <= c < 3 && 0 <= l < 3 && #[trigger] before.double_line_removes(c, l, d);
                assert(has_digit(adds[3 * c + l], d));
            }
        }
        updated
    }
}

impl FoldedArea {
    /// Removes each lane's mask from the lane's word, so that later passes see the
    /// narrowed lanes.
    pub fn apply_masks(&mut self)
        ensures
            forall|b: int, l: int| 0 <= b < 3 && 0 <= l < 3 ==> #[trigger] final(self).fold(b, l) == old(self).fold(b, l) & !old(self).mask(b, l),
            forall|b: int, l: int| 0 <= b < 3 && 0 <= l < 3 ==> #[trigger] final(self).mask(b, l) == old(self).mask(b, l),
            forall|b: int| 0 <= b < 3 ==> #[trigger] final(self).known(b) == old(self).known(b),
            final(self).area() == old(self).area(),
    {
        proof {
            use_type_invariant(&*self);
        }
        let ghost start = *self;
        let mut k: usize = 0;
        while k < 9
            invariant
                k <= 9,
                self.masks == start.masks,
                self.known == start.known,
                self.idx == start.idx,
                forall|j: int| 0 <= j < 9 ==> #[trigger] start.masks[j] & !ALL_CANDIDATES == 0,
                forall|j: int| 0 <= j < k ==> #[trigger] self.folds[j] == start.folds[j] & !(start.masks[j] & ALL_CANDIDATES),
                forall|j: int| k <= j < 9 ==> #[trigger] self.folds[j] == start.folds[j],
            decreases 9 - k,
        {
            proof {
                lemma_mask_exact(self.masks[k as int]);
            }
            self.folds[k] = self.folds[k] & !self.masks[k];
            k = k + 1;
        }
        proof {
            assert forall|b: int, l: int| 0 <= b < 3 && 0 <= l < 3 implies #[trigger] self.fold(b, l) == start.fold(b, l) & !start.mask(b, l) by {
                assert(0 <= 3 * b + l < 9);
            }
        }
    }

    /// The filters that carry the masks to the grid: for box `b`, lane `l` and offset `t`
    /// within the lane, entry `9 * b + 3 * l + t` removes the lane's mask from that cell.
    pub fn get_filters(&self) -> (r: [Filter; 27])
        ensures
            forall|w: int| 0 <= w < 27 ==> (#[trigger] r[w]).idx@ == area_cell_pos(self.area(), w / 9, w % 9 / 3, w % 3)
                && r[w].mask@ == self.mask(w / 9, w % 9 / 3),
    {
        proof {
            use_type_invariant(self);
        }
        let a = self.idx.to_usize();
        let boxes = self.idx.to_box_section_idxs();
        let cells = [
            SectionInfo::new(SectionKind::Box, boxes[0]).grid_idxs(),
            SectionInfo::new(SectionKind::Box, boxes[1]).grid_idxs(),
            SectionInfo::new(SectionKind::Box, boxes[2]).grid_idxs(),
        ];
        proof {
            lemma_zero_no_digit();
        }
        let mut filters = [Filter::new(CellMask::new_unchecked(0), GridIdx::new_unchecked(0)); 27];
        let mut w: usize = 0;
        while w < 27
            invariant
                w <= 27,
                a == self.area(),
                a < 6,
                forall|j: int| 0 <= j < 9 ==> #[trigger] self.masks[j] & !ALL_CANDIDATES == 0,
                forall|b: int, j: int| 0 <= b < 3 && 0 <= j < 9 ==> (#[trigger] cells[b][j])@ == section_pos(SectionKind::Box, area_box(a as int, b), j),
                forall|v: int| 0 <= v < w ==> (#[trigger] filters[v]).idx@ == area_cell_pos(a as int, v / 9, v % 9 / 3, v % 3)
                    && filters[v].mask@ == self.mask(v / 9, v % 9 / 3),
            decreases 27 - w,
        {
            let b = w / 9;
            let l = w % 9 / 3;
            let t = w % 3;
            let inner = if a < 3 { 3 * t + l } else { 3 * l + t };
            let m = self.masks[3 * b + l];
            proof {
                lemma_mask_exact(m);
                lemma_and_all(m);
            }
            filters[w] = Filter::new(CellMask::new_unchecked(m), cells[b][inner]);
            w = w + 1;
        }
        filters
    }
}

/// Digit `d` can take lane `p[k]` in box `k` for every box of the band, the three lanes
/// being different, as in any completion of the band.
pub open spec fn placement(fa: FoldedArea, d: int, p: Seq<int>) -> bool {
    &&& p.len() == 3
    &&& forall|k: int| 0 <= k < 3 ==> 0 <= #[trigger] p[k] < 3 && has_digit(fa.fold(k, p[k]), d)
    &&& p[0] != p[1] && p[0] != p[2] && p[1] != p[2]
}

/// Single-line projection is sound: it never removes a digit from the lane that a
/// placement of that digit uses, so a cell whose only candidate is that digit keeps it.
pub proof fn lemma_single_lines_sound(fa: FoldedArea, d: int, p: Seq<int>)
    requires
        placement(fa, d, p),
    ensures
        forall|k: int| 0 <= k < 3 ==> !(#[trigger] fa.single_line_removes(k, p[k], d)),
{
    assert forall|k: int| 0 <= k < 3 implies !(#[trigger] fa.single_line_removes(k, p[k], d)) by {
        if fa.single_line_removes(k, p[k], d) {
            let b = choose|b: int| 0 <= b < 3 && b != k && #[trigger] fa.single_line_at(b, p[k], d);
            assert(has_digit(fa.fold(b, p[b]), d));
            assert(p[b] != p[k]);
        }
    }
}

/// Double-line projection is sound: it never removes a digit from the lane that a
/// placement of that digit uses.
pub proof fn lemma_double_lines_sound(fa: FoldedArea, d: int, p: Seq<int>)
    requires
        placement(fa, d, p),
    ensures
        forall|k: int| 0 <= k < 3 ==> !(#[trigger] fa.double_line_removes(k, p[k], d)),
{
    assert forall|k: int| 0 <= k < 3 implies !(#[trigger] fa.double_line_removes(k, p[k], d)) by {
        if fa.double_line_removes(k, p[k], d) {
            let r = choose|r: int| 0 <= r < 3 && r != p[k] && #[trigger] fa.double_line_at(other(k, 0), other(k, 1), r, d);
            let a = other(k, 0);
            let b = other(k, 1);
            assert(has_digit(fa.fold(a, p[a]), d));
            assert(has_digit(fa.fold(b, p[b]), d));
        }
    }
}

/// Line projection keeps every placement a solution could make. Take band `a` of the board
/// `g`, folded, then narrowed by single-line and then double-line projection. If digit `d`
/// is a candidate of one cell in each box of the band, at lane `lanes[k]` and offset
/// `offsets[k]` of box `k`, the three lanes being different, then no lane mask of those
/// cells holds `d`: the filters of the band leave `d` in each of them.
pub proof fn lemma_projection_keeps_placement(
    g: Grid,
    folded: FoldedArea,
    singled: FoldedArea,
    doubled: FoldedArea,
    d: int,
    lanes: Seq<int>,
    offsets: Seq<int>,
)
    requires
        0 <= folded.area() < 6,
        forall|b: int, l: int| 0 <= b < 3 && 0 <= l < 3 ==> #[trigger] folded.fold(b, l)
            == g@[area_cell_pos(folded.area(), b, l, 0)] | g@[area_cell_pos(folded.area(), b, l, 1)]
            | g@[area_cell_pos(folded.area(), b, l, 2)],
        forall|b: int, l: int| 0 <= b < 3 && 0 <= l < 3 ==> #[trigger] folded.mask(b, l) == 0,
        folded.masks_grow(singled, |c: int, l: int, e: int| folded.single_line_removes(c, l, e)),
        singled.masks_grow(doubled, |c: int, l: int, e: int| singled.double_line_removes(c, l, e)),
        lanes.len() == 3,
        offsets.len() == 3,
        lanes[0] != lanes[1] && lanes[0] != lanes[2] && lanes[1] != lanes[2],
        forall|k: int| 0 <= k < 3 ==> 0 <= #[trigger] lanes[k] < 3 && 0 <= offsets[k] < 3,
        forall|k: int| 0 <= k < 3 ==> #[trigger] has_digit(g@[area_cell_pos(folded.area(), k, lanes[k], offsets[k])], d),
    ensures
        forall|k: int| 0 <= k < 3 ==> !#[trigger] has_digit(doubled.mask(k, lanes[k]), d),
{
    let a = folded.area();
    assert forall|k: int| 0 <= k < 3 implies #[trigger] has_digit(folded.fold(k, lanes[k]), d) by {
        let l = lanes[k];
        let w0 = g@[area_cell_pos(a, k, l, 0)];
        let w1 = g@[area_cell_pos(a, k, l, 1)];
        let w2 = g@[area_cell_pos(a, k, l, 2)];
        lemma_digit_ops(w0, w1);
        lemma_digit_ops(w0 | w1, w2);
    }
    assert(placement(folded, d, lanes));
    lemma_single_lines_sound(folded, d, lanes);
    assert forall|k: int| 0 <= k < 3 implies #[trigger] singled.fold(k, lanes[k]) == folded.fold(k, lanes[k]) by {}
    assert(placement(singled, d, lanes));
    lemma_double_lines_sound(singled, d, lanes);
    lemma_zero_no_digit();
    assert forall|k: int| 0 <= k < 3 implies !#[trigger] has_digit(doubled.mask(k, lanes[k]), d) by {
        assert(!has_digit(folded.mask(k, lanes[k]), d));
        assert(!folded.single_line_removes(k, lanes[k], d));
        assert(!has_digit(singled.mask(k, lanes[k]), d));
        assert(!singled.double_line_removes(k, lanes[k], d));
    }
}

/// Section `sec` of the given kind of the solved board `s` holds digit `d`.
pub open spec fn section_has(s: Seq<int>, kind: SectionKind, sec: int, d: int) -> bool {
    exists|j: int| 0 <= j < 9 && #[trigger] s[section_pos(kind, sec, j)] == d
}

/// `s` is a solved board: every cell holds a digit from 1 to 9, no digit repeats in a row,
/// a column or a box, and every row, column and box holds every digit.
pub open spec fn is_solution(s: Seq<int>) -> bool {
    &&& s.len() == 81
    &&& forall|p: int| 0 <= p < 81 ==> 1 <= #[trigger] s[p] <= 9
    &&& forall|p: int, q: int| 0 <= p < 81 && 0 <= q < 81 && p != q
        && (p / 9 == q / 9 || p % 9 == q % 9 || box_of(p) == box_of(q)) ==> #[trigger] s[p] != #[trigger] s[q]
    &&& forall|kind: SectionKind, sec: int, d: int| 0 <= sec < 9 && 1 <= d <= 9 ==> #[trigger] section_has(s, kind, sec, d)
}

/// Line projection never removes a cell's solution digit. Take band `a` of the board `g`,
/// folded, then narrowed by single-line and then double-line projection. If every cell of
/// `g` still holds the digit of a solved board `s` as a candidate, then the lane mask of
/// every cell of the band lacks that cell's digit in `s`, so the band's filters leave it.
#[verifier::rlimit(40)]
pub proof fn lemma_projection_keeps_solution(
    g: Grid,
    folded: FoldedArea,
    singled: FoldedArea,
    doubled: FoldedArea,
    s: Seq<int>,
    b: int,
    l: int,
    t: int,
)
    requires
        0 <= folded.area() < 6,
        forall|k: int, m: int| 0 <= k < 3 && 0 <= m < 3 ==> #[trigger] folded.fold(k, m)
            == g@[area_cell_pos(folded.area(), k, m, 0)] | g@[area_cell_pos(folded.area(), k, m, 1)]
            | g@[area_cell_pos(folded.area(), k, m, 2)],
        forall|k: int, m: int| 0 <= k < 3 && 0 <= m < 3 ==> #[trigger] folded.mask(k, m) == 0,
        folded.masks_grow(singled, |c: int, m: int, e: int| folded.single_line_removes(c, m, e)),
        singled.masks_grow(doubled, |c: int, m: int, e: int| singled.double_line_removes(c, m, e)),
        is_solution(s),
        forall|p: int| 0 <= p < 81 ==> #[trigger] has_digit(g@[p], s[p]),
        0 <= b < 3,
        0 <= l < 3,
        0 <= t < 3,
    ensures
        !has_digit(doubled.mask(b, l), s[area_cell_pos(folded.area(), b, l, t)]),
{
    let a = folded.area();
    let d = s[area_cell_pos(a, b, l, t)];
    // in each box of the band, the cell holding `d` in the solution
    let inner = |k: int| if k == b {
        lane_inner(a, l, t)
    } else {
        choose|j: int| 0 <= j < 9 && #[trigger] s[section_pos(SectionKind::Box, area_box(a, k), j)] == d
    };
    let lane = |j: int| if a < 3 { j % 3 } else { j / 3 };
    let off = |j: int| if a < 3 { j / 3 } else { j % 3 };
    let lanes = seq![lane(inner(0)), lane(inner(1)), lane(inner(2))];
    let offsets = seq![off(inner(0)), off(inner(1)), off(inner(2))];
    assert forall|k: int| 0 <= k < 3 implies 0 <= #[trigger] inner(k) < 9 && s[section_pos(SectionKind::Box, area_box(a, k), inner(k))] == d
        && lane_inner(a, lane(inner(k)), off(inner(k))) == inner(k) by {
        if k != b {
            assert(section_has(s, SectionKind::Box, area_box(a, k), d));
        }
        let j = inner(k);
        lemma_split(j, 3, j / 3, j % 3);
    }
    assert forall|k: int| 0 <= k < 3 implies #[trigger] lanes[k] == lane(inner(k)) && offsets[k] == off(inner(k)) by {}
    assert forall|k: int| 0 <= k < 3 implies 0 <= #[trigger] lanes[k] < 3 && 0 <= offsets[k] < 3 by {}
    assert forall|k: int| 0 <= k < 3 implies #[trigger] has_digit(g@[area_cell_pos(a, k, lanes[k], offsets[k])], d) by {
        assert(area_cell_pos(a, k, lanes[k], offsets[k]) == section_pos(SectionKind::Box, area_box(a, k), inner(k)));
        lemma_box_cell(area_box(a, k), inner(k));
    }
    assert forall|j: int, k: int| 0 <= j < k < 3 implies lanes[j] != lanes[k] by {
        let (bj, bk) = (area_box(a, j), area_box(a, k));
        let (pj, pk) = (section_pos(SectionKind::Box, bj, inner(j)), section_pos(SectionKind::Box, bk, inner(k)));
        lemma_box_cell(bj, inner(j));
        lemma_box_cell(bk, inner(k));
        lemma_split(inner(j), 3, inner(j) / 3, inner(j) % 3);
        lemma_split(inner(k), 3, inner(k) / 3, inner(k) % 3);
        if a < 3 {
            lemma_split(bj, 3, j, a);
            lemma_split(bk, 3, k, a);
        } else {
            lemma_split(bj, 3, a - 3, j);
            lemma_split(bk, 3, a - 3, k);
        }
        if lanes[j] == lanes[k] {
            assert(pj != pk);
            assert(s[pj] != s[pk]);
        }
    }
    lemma_projection_keeps_placement(g, folded, singled, doubled, d, lanes, offsets);
    assert(lanes[b] == l) by {
        lemma_split(lane_inner(a, l, t), 3, if a < 3 { t } else { l }, if a < 3 { l } else { t });
    }
}

impl Grid {
    /// Folds band `area_idx` of the board: lane `l` of its `b`-th box is the `|` of the
    /// words of that lane's three cells, and the known word of a box is the `|` of the
    /// candidate bits of its known cells, so its known flag and high bits are clear.
    pub fn get_folded_area(&self, area_idx: AreaIdx) -> (r: FoldedArea)
        ensures
            r.area() == area_idx@,
            forall|b: int, l: int| 0 <= b < 3 && 0 <= l < 3 ==> #[trigger] r.fold(b, l)
                == self@[area_cell_pos(area_idx@, b, l, 0)] | self@[area_cell_pos(area_idx@, b, l, 1)]
                | self@[area_cell_pos(area_idx@, b, l, 2)],
            forall|b: int| 0 <= b < 3 ==> #[trigger] r.known(b) == known_or(self@, area_box(area_idx@, b), 9),
            forall|b: int, l: int| 0 <= b < 3 && 0 <= l < 3 ==> #[trigger] r.mask(b, l) == 0,
    {
        let a = area_idx.to_usize();
        let boxes = area_idx.to_box_section_idxs();
        let mut folds = [[0u16; 3]; 3];
        let mut known = [0u16; 3];
        let mut b: usize = 0;
        while b < 3
            invariant
                b <= 3,
                a == area_idx@,
                forall|k: int| 0 <= k < 3 ==> #[trigger] boxes[k]@ == area_box(a as int, k),
                forall|k: int, l: int| 0 <= k < b && 0 <= l < 3 ==> #[trigger] folds[k][l]
                    == self@[area_cell_pos(a as int, k, l, 0)] | self@[area_cell_pos(a as int, k, l, 1)]
                    | self@[area_cell_pos(a as int, k, l, 2)],
                forall|k: int| 0 <= k < b ==> #[trigger] known[k] == known_or(self@, area_box(a as int, k), 9),
            decreases 3 - b,
        {
            let section = self.get_section(SectionInfo::new(SectionKind::Box, boxes[b]));
            let ghost s = area_box(a as int, b as int);
            let mut kn: u16 = 0;
            let mut j: usize = 0;
            while j < 9
                invariant
                    j <= 9,
                    section.words() == crate::grid::section_words(self@, SectionKind::Box, s),
                    kn == known_or(self@, s, j as int),
                decreases 9 - j,
            {
                let cell = section.cells[j];
                proof {
                    assert(section.words()[j as int] == cell@);
                }
                if cell.is_known() {
                    kn = kn | (cell.to_u16() & ALL_CANDIDATES);
                } else {
                    proof {
                        assert(kn | 0 == kn) by (bit_vector);
                    }
                }
                j = j + 1;
            }
            proof {
                lemma_known_or_within(self@, s, 9);
            }
            known[b] = kn;
            let mut lanes = [0u16; 3];
            let mut l: usize = 0;
            while l < 3
                invariant
                    l <= 3,
                    a == area_idx@,
                    section.words() == crate::grid::section_words(self@, SectionKind::Box, s),
                    s == area_box(a as int, b as int),
                    forall|m: int| 0 <= m < l ==> #[trigger] lanes[m]
                        == self@[area_cell_pos(a as int, b as int, m, 0)] | self@[area_cell_pos(a as int, b as int, m, 1)]
                        | self@[area_cell_pos(a as int, b as int, m, 2)],
                decreases 3 - l,
            {
                let (i0, i1, i2) = if a < 3 { (l, 3 + l, 6 + l) } else { (3 * l, 3 * l + 1, 3 * l + 2) };
                proof {
                    assert(section.words()[i0 as int] == self@[area_cell_pos(a as int, b as int, l as int, 0)]);
                    assert(section.words()[i1 as int] == self@[area_cell_pos(a as int, b as int, l as int, 1)]);
                    assert(section.words()[i2 as int] == self@[area_cell_pos(a as int, b as int, l as int, 2)]);
                }
                lanes[l] = section.cells[i0].to_u16() | section.cells[i1].to_u16() | section.cells[i2].to_u16();
                l = l + 1;
            }
            folds[b] = lanes;
            b = b + 1;
        }
        FoldedArea::new(folds, known, area_idx)
    }
}

/// The meaning of each count word on one digit bit.
proof fn lemma_count_word(x: u16, y: u16, z: u16, d: u16)
    requires
        1 <= d <= 9,
    ensures
        has_digit(count_word(0, x, y, z), d as int) <==> lanes_with(x, y, z, d as int) == 0,
        has_digit(count_word(1, x, y, z), d as int) <==> lanes_with(x, y, z, d as int) == 1,
        has_digit(count_word(2, x, y, z), d as int) <==> lanes_with(x, y, z, d as int) == 2,
        has_digit(count_word(3, x, y, z), d as int) <==> lanes_with(x, y, z, d as int) == 3,
{
    lemma_count_bits(x, y, z, d);
}

proof fn lemma_count_bits(x: u16, y: u16, z: u16, d: u16)
    by (bit_vector)
    requires
        1 <= d <= 9,
    ensures
        ((((x | y | z) ^ 0x3feu16) >> d) & 1 == 1) <==> (!((x >> d) & 1 == 1) && !((y >> d) & 1 == 1) && !((z >> d) & 1 == 1)),
        ((((x ^ y ^ z) & ((x & y & z) ^ 0x3feu16)) >> d) & 1 == 1) <==> (
            ((x >> d) & 1 == 1 && !((y >> d) & 1 == 1) && !((z >> d) & 1 == 1))
            || (!((x >> d) & 1 == 1) && (y >> d) & 1 == 1 && !((z >> d) & 1 == 1))
            || (!((x >> d) & 1 == 1) && !((y >> d) & 1 == 1) && (z >> d) & 1 == 1)),
        ((((x | y | z) & ((x ^ y ^ z) ^ 0x3feu16)) >> d) & 1 == 1) <==> (
            ((x >> d) & 1 == 1 && (y >> d) & 1 == 1 && !((z >> d) & 1 == 1))
            || ((x >> d) & 1 == 1 && !((y >> d) & 1 == 1) && (z >> d) & 1 == 1)
            || (!((x >> d) & 1 == 1) && (y >> d) & 1 == 1 && (z >> d) & 1 == 1)),
        (((x & y & z) >> d) & 1 == 1) <==> ((x >> d) & 1 == 1 && (y >> d) & 1 == 1 && (z >> d) & 1 == 1),
{
}

/// A word within the candidate bits is empty exactly when it has no digit.
proof fn lemma_nonzero_digit(w: u16)
    requires
        w & !ALL_CANDIDATES == 0,
    ensures
        w != 0 <==> exists|d: int| #[trigger] has_digit(w, d),
{
    if w != 0 {
        if !(exists|d: int| #[trigger] has_digit(w, d)) {
            assert(!has_digit(w, 1) && !has_digit(w, 2) && !has_digit(w, 3));
            assert(!has_digit(w, 4) && !has_digit(w, 5) && !has_digit(w, 6));
            assert(!has_digit(w, 7) && !has_digit(w, 8) && !has_digit(w, 9));
            lemma_no_digit_bits(w);
        }
    } else {
        lemma_zero_no_digit();
    }
}

proof fn lemma_no_digit_bits(w: u16)
    by (bit_vector)
    requires
        w & !0x3feu16 == 0,
        (w >> 1u16) & 1 != 1,
        (w >> 2u16) & 1 != 1,
        (w >> 3u16) & 1 != 1,
        (w >> 4u16) & 1 != 1,
        (w >> 5u16) & 1 != 1,
        (w >> 6u16) & 1 != 1,
        (w >> 7u16) & 1 != 1,
        (w >> 8u16) & 1 != 1,
        (w >> 9u16) & 1 != 1,
    ensures
        w == 0,
{
}

} // verus!
