//! The propagation loop: finders and line projection applied until nothing changes.
use vstd::prelude::*;

use crate::area::{
    is_solution, lemma_projection_keeps_solution, section_has,
    area_cell_pos, band_fold, band_settled, band_single_removes, band_double_removes,
    band_known, known_or, lemma_band_removes, FoldedArea,
};
use vstd::arithmetic::div_mod::lemma_fundamental_div_mod_converse;
use crate::board::{board_digit, seed_words, Board};
use crate::cell::{
    check_word, lemma_top_digit, shown_digit, top_digit, valid_word, CandidateError, Cell,
};
use crate::filter::Filter;
use crate::grid::{
    filtered_all, grid_outcome, lemma_filters_monotone, section_words, sibling_pos, Grid,
};
use crate::idx::{area_box, box_inner_of, box_of, AreaIdx, GridIdx, Idx};
use crate::num::Num;
use crate::section::{section_outcome, section_pos, unique_in, uniques_below, SectionKind};
use crate::solver::Solver;
use crate::word::{
    candidate_count, digit_bit, has_digit, ALL_CANDIDATES, known_flag, lemma_count_subset, lemma_digit_bit, lemma_digit_ops,
    lemma_set_flag,
};

verus! {

broadcast use Grid::lemma_len, Idx::lemma_range, Num::lemma_range;

/// `next` is `prev` narrowed: no candidate added, no known flag cleared, and the unused
/// high bits untouched.
pub open spec fn narrowed(next: Seq<u16>, prev: Seq<u16>) -> bool {
    &&& next.len() == prev.len()
    &&& forall|p: int, d: int| 0 <= p < next.len() && #[trigger] has_digit(next[p], d) ==> has_digit(prev[p], d)
    &&& forall|p: int| 0 <= p < next.len() ==> (known_flag(prev[p]) ==> known_flag(#[trigger] next[p]))
    &&& forall|p: int| 0 <= p < next.len() ==> (#[trigger] next[p]) >> 10 == prev[p] >> 10
}

/// The cell at `p` of `g` is settled: its word is valid; a known cell's digit is absent
/// from the other cells of its row, column and box; an unknown cell has at least two
/// candidates and no unique candidate.
pub open spec fn settled(g: Seq<u16>, p: int) -> bool {
    &&& valid_word(g[p])
    &&& known_flag(g[p]) ==> forall|t: int| 0 <= t < 24 ==> !#[trigger] has_digit(g[sibling_pos(p, t / 8, t % 8)], shown_digit(g[p]))
    &&& !known_flag(g[p]) ==> candidate_count(g[p]) >= 2 && grid_outcome(g, p) == Ok::<Option<int>, CandidateError>(None)
}

/// The board `g` is a fixpoint of propagation: every cell is settled and no line
/// projection applies to any of the six bands.
pub open spec fn fixpoint(g: Seq<u16>) -> bool {
    &&& forall|p: int| 0 <= p < 81 ==> #[trigger] settled(g, p)
    &&& forall|a: int| 0 <= a < 6 ==> #[trigger] band_settled(g, a)
}

/// When the filters of a band's projection leave the board as it was, no projection
/// applies to that band.
proof fn lemma_projection_settles(
    g: Grid,
    fa0: FoldedArea,
    fa1: FoldedArea,
    fa2: FoldedArea,
    filters: Seq<Filter>,
)
    requires
        0 <= fa0.area() < 6,
        forall|b: int, l: int| 0 <= b < 3 && 0 <= l < 3 ==> #[trigger] fa0.fold(b, l)
            == g@[area_cell_pos(fa0.area(), b, l, 0)] | g@[area_cell_pos(fa0.area(), b, l, 1)]
            | g@[area_cell_pos(fa0.area(), b, l, 2)],
        forall|b: int| 0 <= b < 3 ==> #[trigger] fa0.known(b) == known_or(g@, area_box(fa0.area(), b), 9),
        fa0.masks_grow(fa1, |c: int, l: int, d: int| fa0.single_line_removes(c, l, d)),
        fa1.masks_grow(fa2, |c: int, l: int, d: int| fa1.double_line_removes(c, l, d)),
        filters.len() == 27,
        forall|w: int| 0 <= w < 27 ==> (#[trigger] filters[w]).idx@ == area_cell_pos(fa2.area(), w / 9, w % 9 / 3, w % 3)
            && filters[w].mask@ == fa2.mask(w / 9, w % 9 / 3),
        filtered_all(g@, filters) == g@,
    ensures
        band_settled(g@, fa0.area()),
{
    let a = fa0.area();
    let gg = g@;
    assert forall|b: int, l: int| 0 <= b < 3 && 0 <= l < 3 implies #[trigger] fa0.fold(b, l) == band_fold(gg, a, b, l) by {}
    assert forall|b: int, l: int| 0 <= b < 3 && 0 <= l < 3 implies #[trigger] fa1.fold(b, l) == band_fold(gg, a, b, l) by {
        assert(fa1.fold(b, l) == fa0.fold(b, l));
    }
    assert forall|b: int| 0 <= b < 3 implies #[trigger] fa1.known(b) == band_known(gg, a, b) by {
        assert(fa1.known(b) == fa0.known(b));
    }
    lemma_band_removes(gg, fa0);
    lemma_band_removes(gg, fa1);
    assert forall|c: int, l: int, d: int| 0 <= c < 3 && 0 <= l < 3 && has_digit(fa2.mask(c, l), d)
        implies !has_digit(band_fold(gg, a, c, l), d) by {
        if has_digit(band_fold(gg, a, c, l), d) {
            lemma_lane_digit(gg, a, c, l, d);
            let t = choose|t: int| 0 <= t < 3 && #[trigger] has_digit(gg[area_cell_pos(a, c, l, t)], d);
            let w = 9 * c + 3 * l + t;
            lemma_fundamental_div_mod_converse(w, 9, c, 3 * l + t);
            lemma_fundamental_div_mod_converse(3 * l + t, 3, l, t);
            lemma_fundamental_div_mod_converse(w, 3, 3 * c + l, t);
            lemma_filters_clear(g, filters, w, d);
        }
    }
    assert forall|c: int, l: int, d: int| 0 <= c < 3 && 0 <= l < 3 implies !#[trigger] band_single_removes(gg, a, c, l, d) by {
        if band_single_removes(gg, a, c, l, d) {
            assert(fa0.single_line_removes(c, l, d));
            assert(has_digit(fa1.mask(c, l), d));
            assert(has_digit(fa2.mask(c, l), d));
        }
    }
    assert forall|c: int, l: int, d: int| 0 <= c < 3 && 0 <= l < 3 implies !#[trigger] band_double_removes(gg, a, c, l, d) by {
        if band_double_removes(gg, a, c, l, d) {
            assert(fa1.double_line_removes(c, l, d));
            assert(has_digit(fa2.mask(c, l), d));
        }
    }
}

/// A lane holding digit `d` has a cell holding it.
proof fn lemma_lane_digit(g: Seq<u16>, a: int, c: int, l: int, d: int)
    requires
        has_digit(band_fold(g, a, c, l), d),
    ensures
        exists|t: int| 0 <= t < 3 && #[trigger] has_digit(g[area_cell_pos(a, c, l, t)], d),
{
    let w0 = g[area_cell_pos(a, c, l, 0)];
    let w1 = g[area_cell_pos(a, c, l, 1)];
    let w2 = g[area_cell_pos(a, c, l, 2)];
    lemma_digit_ops(w0, w1);
    lemma_digit_ops(w0 | w1, w2);
    if has_digit(w0, d) {
        assert(has_digit(g[area_cell_pos(a, c, l, 0)], d));
    } else if has_digit(w1, d) {
        assert(has_digit(g[area_cell_pos(a, c, l, 1)], d));
    } else {
        assert(has_digit(g[area_cell_pos(a, c, l, 2)], d));
    }
}

/// Every cell of `g` is valid and still holds its digit in the solved board `s`.
pub open spec fn admits(g: Seq<u16>, s: Seq<int>) -> bool {
    &&& g.len() == 81
    &&& forall|p: int| 0 <= p < 81 ==> valid_word(#[trigger] g[p]) && has_digit(g[p], s[p])
}

/// The cell at `q` is one of the 24 cells that the filters of the cell at `p` reach.
pub open spec fn is_sibling(p: int, q: int) -> bool {
    exists|t: int| 0 <= t < 24 && #[trigger] sibling_pos(p, t / 8, t % 8) == q
}

/// The solved boards that agree with the given digits of `digits`.
pub open spec fn fits_givens(s: Seq<int>, digits: Seq<u8>) -> bool {
    &&& is_solution(s)
    &&& forall|p: int| 0 <= p < 81 && digits[p] != 0 ==> #[trigger] s[p] == digits[p]
}

/// A filter list keeps digit `e` in cell `q` when no filter aimed at `q` removes `e`.
proof fn lemma_filters_keep(g: Grid, fs: Seq<Filter>, q: int, e: int)
    requires
        0 <= q < 81,
        has_digit(g@[q], e),
        forall|t: int| 0 <= t < fs.len() && (#[trigger] fs[t]).idx@ == q ==> !has_digit(fs[t].mask@, e),
    ensures
        has_digit(filtered_all(g@, fs)[q], e),
    decreases fs.len(),
{
    if fs.len() > 0 {
        let init = fs.drop_last();
        assert forall|t: int| 0 <= t < init.len() && (#[trigger] init[t]).idx@ == q implies !has_digit(init[t].mask@, e) by {
            assert(init[t] == fs[t]);
        }
        lemma_filters_keep(g, init, q, e);
        let prev = filtered_all(g@, init);
        lemma_filters_monotone(g, init);
        lemma_digit_ops(prev[fs.last().idx@], fs.last().mask@);
        assert(fs.last() == fs[fs.len() - 1]);
    }
}

/// A filtered board that keeps every digit of `s` and every known flag still admits `s`.
proof fn lemma_admits_filtered(before: Seq<u16>, after: Seq<u16>, s: Seq<int>)
    requires
        admits(before, s),
        narrowed(after, before),
        forall|q: int| 0 <= q < 81 ==> (#[trigger] after[q]) & 1 == before[q] & 1,
        forall|q: int| 0 <= q < 81 ==> has_digit(#[trigger] after[q], s[q]),
    ensures
        admits(after, s),
{
    assert forall|q: int| 0 <= q < 81 implies valid_word(#[trigger] after[q]) && has_digit(after[q], s[q]) by {
        let (a, b) = (after[q], before[q]);
        assert forall|d: int| #[trigger] has_digit(a, d) implies has_digit(b, d) by {}
        lemma_count_subset(a, b, 10);
        crate::word::lemma_count_zero(a, 10);
        assert(has_digit(a, s[q]));
        lemma_high_small(a, b);
    }
}

/// Spreading a known cell's digit keeps every admitted solution.
proof fn lemma_spread_admits(before: Seq<u16>, after: Seq<u16>, p: int, s: Seq<int>)
    requires
        admits(before, s),
        is_solution(s),
        0 <= p < 81,
        known_flag(before[p]),
        narrowed(after, before),
        forall|q: int| 0 <= q < 81 ==> (#[trigger] after[q]) & 1 == before[q] & 1,
        forall|q: int, e: int| 0 <= q < 81 && #[trigger] has_digit(before[q], e) && (e != shown_digit(before[p])
            || !is_sibling(p, q)) ==> has_digit(after[q], e),
    ensures
        admits(after, s),
{
    let n = shown_digit(before[p]);
    lemma_top_digit(before[p], 10);
    crate::word::lemma_count_one(before[p], 10, n, s[p]);
    assert forall|q: int| 0 <= q < 81 implies has_digit(#[trigger] after[q], s[q]) by {
        assert(has_digit(before[q], s[q]));
        if s[q] == n && is_sibling(p, q) {
            let t = choose|t: int| 0 <= t < 24 && #[trigger] sibling_pos(p, t / 8, t % 8) == q;
            crate::grid::lemma_siblings(p, t / 8, t % 8, t % 8);
            assert(s[p] != s[q]);
        }
    }
    lemma_admits_filtered(before, after, s);
}

/// In a board admitting `s`, the unique-candidate finder of a section reports nothing or
/// the cell's digit in `s`.
proof fn lemma_section_sound(g: Seq<u16>, s: Seq<int>, kind: SectionKind, sec: int, i: int)
    requires
        admits(g, s),
        is_solution(s),
        0 <= sec < 9,
        0 <= i < 9,
    ensures
        section_outcome(section_words(g, kind, sec), i) == Ok::<Option<int>, CandidateError>(None)
            || section_outcome(section_words(g, kind, sec), i) == Ok::<Option<int>, CandidateError>(
            Some(s[section_pos(kind, sec, i)])),
{
    let w = section_words(g, kind, sec);
    let x = s[section_pos(kind, sec, i)];
    assert forall|j: int| 0 <= j < 9 implies 0 <= #[trigger] section_pos(kind, sec, j) < 81 by {
        if kind == SectionKind::Box {
            crate::grid::lemma_box_cell(sec, j);
        } else {
            crate::grid::lemma_line_cell(kind, sec, j);
        }
    }
    assert(0 <= section_pos(kind, sec, i) < 81);
    assert forall|d: int| #[trigger] unique_in(w, i, d) implies d == x by {
        assert(section_has(s, kind, sec, d));
        let j = choose|j: int| 0 <= j < 9 && #[trigger] s[section_pos(kind, sec, j)] == d;
        assert(has_digit(g[section_pos(kind, sec, j)], d));
        assert(w[j] == g[section_pos(kind, sec, j)]);
    }
    lemma_uniques_at_most(w, i, x, 10);
    if uniques_below(w, i, 10) == 1 {
        lemma_some_unique(w, i, 10);
    }
}

/// When every unique digit is `x`, at most one digit is unique.
proof fn lemma_uniques_at_most(w: Seq<u16>, i: int, x: int, k: int)
    requires
        forall|d: int| #[trigger] unique_in(w, i, d) ==> d == x,
    ensures
        uniques_below(w, i, k) <= if x < k { 1int } else { 0int },
    decreases k,
{
    if k > 1 {
        lemma_uniques_at_most(w, i, x, k - 1);
    }
}

/// In a board admitting `s`, the combined unique-candidate finder reports nothing or the
/// cell's digit in `s`.
proof fn lemma_finder_sound(g: Seq<u16>, s: Seq<int>, p: int)
    requires
        admits(g, s),
        is_solution(s),
        0 <= p < 81,
    ensures
        grid_outcome(g, p) == Ok::<Option<int>, CandidateError>(None)
            || grid_outcome(g, p) == Ok::<Option<int>, CandidateError>(Some(s[p])),
{
    crate::grid::lemma_row_col(p, p / 9, p % 9);
    lemma_box_pos(p);
    lemma_section_sound(g, s, SectionKind::Row, p / 9, p % 9);
    lemma_section_sound(g, s, SectionKind::Column, p % 9, p / 9);
    lemma_section_sound(g, s, SectionKind::Box, box_of(p), box_inner_of(p));
}

/// The board `g` shows the error `e`: a cell whose check fails with `e`, or a cell whose
/// sections' unique-candidate finder ends in `e`.
pub open spec fn shows_error(g: Seq<u16>, e: CandidateError) -> bool {
    exists|p: int| 0 <= p < 81 && (check_word(#[trigger] g[p]) == Err::<(), CandidateError>(e)
        || grid_outcome(g, p) == Err::<Option<int>, CandidateError>(e))
}

/// How far a cell word is from being known: its candidates, plus one while unknown.
pub open spec fn cell_freedom(w: u16) -> nat {
    candidate_count(w) + if known_flag(w) {
        0nat
    } else {
        1nat
    }
}

/// The freedom of the first `k` cells of `g`.
pub open spec fn freedom_below(g: Seq<u16>, k: int) -> nat
    decreases k,
{
    if k <= 0 {
        0
    } else {
        freedom_below(g, k - 1) + cell_freedom(g[k - 1])
    }
}

/// The freedom of a board: what the propagation loop can still take away.
pub open spec fn freedom(g: Seq<u16>) -> nat {
    freedom_below(g, 81)
}

proof fn lemma_narrowed_refl(g: Seq<u16>)
    ensures
        narrowed(g, g),
{
}

proof fn lemma_narrowed_trans(a: Seq<u16>, b: Seq<u16>, c: Seq<u16>)
    requires
        narrowed(a, b),
        narrowed(b, c),
    ensures
        narrowed(a, c),
{
    assert forall|p: int, d: int| 0 <= p < a.len() && #[trigger] has_digit(a[p], d) implies has_digit(c[p], d) by {
        assert(has_digit(b[p], d));
    }
    assert forall|p: int| 0 <= p < a.len() && known_flag(c[p]) implies known_flag(#[trigger] a[p]) by {
        assert(known_flag(b[p]));
    }
    assert forall|p: int| 0 <= p < a.len() implies (#[trigger] a[p]) >> 10 == c[p] >> 10 by {
        assert(b[p] >> 10 == c[p] >> 10);
    }
}

/// A board narrowed from `c` and narrowing to `c` again is `c`.
proof fn lemma_sandwich(a: Seq<u16>, b: Seq<u16>, c: Seq<u16>)
    requires
        narrowed(a, b),
        narrowed(b, c),
        a == c,
    ensures
        b == c,
{
    assert forall|p: int| 0 <= p < b.len() implies b[p] == c[p] by {
        assert forall|d: int| #[trigger] has_digit(b[p], d) == has_digit(c[p], d) by {
            if has_digit(c[p], d) {
                assert(has_digit(a[p], d));
            }
        }
        assert(known_flag(b[p]) == known_flag(c[p])) by {
            if known_flag(c[p]) {
                assert(known_flag(b[p]));
            }
            if known_flag(b[p]) {
                assert(known_flag(a[p]));
            }
        }
        assert(b[p] >> 10 == c[p] >> 10);
        lemma_word_parts(b[p], c[p]);
    }
    assert(b =~= c);
}

/// After a list of filters, the target of each lacks the candidates of its mask.
proof fn lemma_filters_clear(g: Grid, fs: Seq<Filter>, t: int, d: int)
    requires
        0 <= t < fs.len(),
        has_digit(fs[t].mask@, d),
    ensures
        !has_digit(filtered_all(g@, fs)[fs[t].idx@], d),
    decreases fs.len(),
{
    let prev = filtered_all(g@, fs.drop_last());
    let f = fs.last();
    lemma_filters_monotone(g, fs.drop_last());
    lemma_digit_ops(prev[f.idx@], f.mask@);
    if t < fs.len() - 1 {
        lemma_filters_clear(g, fs.drop_last(), t, d);
        assert(fs.drop_last()[t] == fs[t]);
    }
}

/// Two known cells with the same digit in one section cannot both stand: once the filters
/// of the cell at `p` (those [`Grid::known_filters`] gives for its digit) are applied,
/// the other cell is known with no candidate left, which its check reports.
pub proof fn lemma_equal_knowns_conflict(g: Grid, p: int, s: int, k: int, fs: Seq<Filter>)
    requires
        0 <= p < 81,
        0 <= s < 3,
        0 <= k < 8,
        valid_word(g@[p]),
        known_flag(g@[p]),
        valid_word(g@[sibling_pos(p, s, k)]),
        known_flag(g@[sibling_pos(p, s, k)]),
        shown_digit(g@[sibling_pos(p, s, k)]) == shown_digit(g@[p]),
        fs.len() == 24,
        forall|t: int| 0 <= t < 24 ==> (#[trigger] fs[t]).mask@ == digit_bit(shown_digit(g@[p]))
            && fs[t].idx@ == sibling_pos(p, t / 8, t % 8),
    ensures
        check_word(filtered_all(g@, fs)[sibling_pos(p, s, k)]) == Err::<(), CandidateError>(CandidateError::KnownNoNum),
{
    let q = sibling_pos(p, s, k);
    crate::grid::lemma_siblings(p, s, k, k);
    let d = shown_digit(g@[p]);
    let w = g@[q];
    lemma_top_digit(g@[p], 10);
    lemma_top_digit(w, 10);
    lemma_digit_bit(d);
    let t = 8 * s + k;
    assert(t / 8 == s && t % 8 == k);
    lemma_filters_clear(g, fs, t, d);
    lemma_filters_monotone(g, fs);
    let after = filtered_all(g@, fs);
    assert forall|e: int| 1 <= e < 10 implies !has_digit(after[q], e) by {
        if has_digit(after[q], e) {
            assert(has_digit(w, e));
            crate::word::lemma_count_one(w, 10, d, e);
        }
    }
    crate::word::lemma_count_zero(after[q], 10);
    assert(after[q] & 1 == w & 1);
    assert(after[q] >> 10 == w >> 10);
    lemma_high_small(after[q], w);
}

proof fn lemma_high_small(a: u16, b: u16)
    by (bit_vector)
    requires
        a >> 10 == b >> 10,
        b < 1024,
    ensures
        a < 1024,
{
}

/// Words that agree on the known flag, the nine candidate bits and the high bits are equal.
proof fn lemma_word_parts(a: u16, b: u16)
    requires
        a >> 10 == b >> 10,
        known_flag(a) == known_flag(b),
        forall|d: int| #[trigger] has_digit(a, d) == has_digit(b, d),
    ensures
        a == b,
{
    assert(has_digit(a, 1) == has_digit(b, 1) && has_digit(a, 2) == has_digit(b, 2));
    assert(has_digit(a, 3) == has_digit(b, 3) && has_digit(a, 4) == has_digit(b, 4));
    assert(has_digit(a, 5) == has_digit(b, 5) && has_digit(a, 6) == has_digit(b, 6));
    assert(has_digit(a, 7) == has_digit(b, 7) && has_digit(a, 8) == has_digit(b, 8));
    assert(has_digit(a, 9) == has_digit(b, 9));
    lemma_word_bits(a, b);
}

proof fn lemma_word_bits(a: u16, b: u16)
    by (bit_vector)
    requires
        a >> 10 == b >> 10,
        (a & 1 == 1) == (b & 1 == 1),
        ((a >> 1u16) & 1 == 1) == ((b >> 1u16) & 1 == 1),
        ((a >> 2u16) & 1 == 1) == ((b >> 2u16) & 1 == 1),
        ((a >> 3u16) & 1 == 1) == ((b >> 3u16) & 1 == 1),
        ((a >> 4u16) & 1 == 1) == ((b >> 4u16) & 1 == 1),
        ((a >> 5u16) & 1 == 1) == ((b >> 5u16) & 1 == 1),
        ((a >> 6u16) & 1 == 1) == ((b >> 6u16) & 1 == 1),
        ((a >> 7u16) & 1 == 1) == ((b >> 7u16) & 1 == 1),
        ((a >> 8u16) & 1 == 1) == ((b >> 8u16) & 1 == 1),
        ((a >> 9u16) & 1 == 1) == ((b >> 9u16) & 1 == 1),
    ensures
        a == b,
{
}

/// A narrowed board has no more freedom, and strictly less once any word changed.
proof fn lemma_freedom_drops(a: Seq<u16>, b: Seq<u16>, k: int)
    requires
        narrowed(a, b),
        0 <= k <= a.len(),
    ensures
        freedom_below(a, k) <= freedom_below(b, k),
        (exists|p: int| 0 <= p < k && a[p] != b[p]) ==> freedom_below(a, k) < freedom_below(b, k),
    decreases k,
{
    if k > 0 {
        lemma_freedom_drops(a, b, k - 1);
        let p = k - 1;
        assert forall|d: int| #[trigger] has_digit(a[p], d) implies has_digit(b[p], d) by {}
        lemma_count_subset(a[p], b[p], 10);
        if a[p] != b[p] {
            if known_flag(a[p]) == known_flag(b[p]) {
                if forall|d: int| 1 <= d < 10 ==> !(has_digit(b[p], d) && !has_digit(a[p], d)) {
                    assert forall|d: int| #[trigger] has_digit(a[p], d) == has_digit(b[p], d) by {
                        if 1 <= d < 10 {
                            assert(!(has_digit(b[p], d) && !has_digit(a[p], d)));
                        }
                    }
                    lemma_word_parts(a[p], b[p]);
                }
            }
        }
    }
}

/// Clearing candidates with filters narrows the board.
proof fn lemma_filters_narrow(g: Grid, fs: Seq<Filter>)
    ensures
        narrowed(filtered_all(g@, fs), g@),
{
    lemma_filters_monotone(g, fs);
}

impl Grid {
    /// Whether two boards hold the same words.
    fn same_words(&self, other: &Grid) -> (r: bool)
        ensures
            r == (self@ == other@),
    {
        let mut p: usize = 0;
        while p < 81
            invariant
                p <= 81,
                forall|q: int| 0 <= q < p ==> self@[q] == other@[q],
            decreases 81 - p,
        {
            let i = GridIdx::new_unchecked(p);
            if self.get_cell(i).to_u16() != other.get_cell(i).to_u16() {
                return false;
            }
            p = p + 1;
        }
        proof {
            assert(self@ =~= other@);
        }
        true
    }

    /// Checks every cell in order and reports the first error found.
    pub fn check_all(&self) -> (r: Result<(), CandidateError>)
        ensures
            r is Ok <==> forall|p: int| 0 <= p < 81 ==> valid_word(#[trigger] self@[p]),
            r matches Err(e) ==> exists|p: int| 0 <= p < 81 && check_word(#[trigger] self@[p]) == Err::<(), CandidateError>(e)
                && forall|q: int| 0 <= q < p ==> valid_word(#[trigger] self@[q]),
    {
        let mut p: usize = 0;
        while p < 81
            invariant
                p <= 81,
                forall|q: int| 0 <= q < p ==> valid_word(#[trigger] self@[q]),
            decreases 81 - p,
        {
            match self.get_cell(GridIdx::new_unchecked(p)).check() {
                Ok(()) => {},
                Err(e) => {
                    proof {
                        assert(check_word(self@[p as int]) == Err::<(), CandidateError>(e));
                    }
                    return Err(e);
                },
            }
            p = p + 1;
        }
        Ok(())
    }

    /// Removes a known cell's digit from the other cells of its row, column and box.
    fn spread_known(&mut self, n: Num, idx: GridIdx)
        ensures
            narrowed(final(self)@, old(self)@),
            forall|t: int| 0 <= t < 24 ==> !#[trigger] has_digit(final(self)@[sibling_pos(idx@, t / 8, t % 8)], n@),
            forall|q: int| 0 <= q < 81 ==> (#[trigger] final(self)@[q]) & 1 == old(self)@[q] & 1,
            forall|q: int, e: int| 0 <= q < 81 && #[trigger] has_digit(old(self)@[q], e) && (e != n@ || !is_sibling(idx@, q))
                ==> has_digit(final(self)@[q], e),
    {
        let filters = Grid::known_filters(n, idx);
        let ghost before = *self;
        self.apply_filters(&filters);
        proof {
            lemma_filters_narrow(before, filters@);
            lemma_filters_monotone(before, filters@);
            lemma_digit_bit(n@);
            assert forall|q: int, e: int| 0 <= q < 81 && #[trigger] has_digit(before@[q], e) && (e != n@ || !is_sibling(idx@, q))
                implies has_digit(self@[q], e) by {
                assert forall|t: int| 0 <= t < filters@.len() && (#[trigger] filters@[t]).idx@ == q implies !has_digit(filters@[t].mask@, e) by {
                    assert(filters@[t] == filters[t]);
                    if e == n@ {
                        assert(sibling_pos(idx@, t / 8, t % 8) == q);
                    }
                }
                lemma_filters_keep(before, filters@, q, e);
            }
            assert forall|t: int| 0 <= t < 24 implies !#[trigger] has_digit(self@[sibling_pos(idx@, t / 8, t % 8)], n@) by {
                assert(filters@[t] == filters[t]);
                lemma_filters_clear(before, filters@, t, n@);
            }
        }
    }

    /// Applies single-line and double-line projection to one band. When the board comes out
    /// unchanged, no projection applies to that band.
    fn project_area(&mut self, area: AreaIdx)
        ensures
            narrowed(final(self)@, old(self)@),
            final(self)@ == old(self)@ ==> band_settled(old(self)@, area@),
            forall|q: int| 0 <= q < 81 ==> (#[trigger] final(self)@[q]) & 1 == old(self)@[q] & 1,
            forall|s: Seq<int>| #[trigger] is_solution(s) && (forall|p: int| 0 <= p < 81 ==> has_digit(#[trigger] old(self)@[p], s[p]))
                ==> forall|p: int| 0 <= p < 81 ==> has_digit(#[trigger] final(self)@[p], s[p]),
    {
        let mut folded: FoldedArea = self.get_folded_area(area);
        let ghost fa0 = folded;
        folded.single_lines();
        let ghost fa1 = folded;
        folded.double_lines();
        let filters = folded.get_filters();
        let ghost before = *self;
        self.apply_filters(&filters);
        proof {
            lemma_filters_narrow(before, filters@);
            lemma_filters_monotone(before, filters@);
            if self@ == before@ {
                lemma_projection_settles(before, fa0, fa1, folded, filters@);
            }
            assert forall|s: Seq<int>| #[trigger] is_solution(s) && (forall|p: int| 0 <= p < 81 ==> has_digit(#[trigger] before@[p], s[p]))
                implies forall|p: int| 0 <= p < 81 ==> has_digit(#[trigger] self@[p], s[p]) by {
                assert forall|q: int| 0 <= q < 81 implies has_digit(#[trigger] self@[q], s[q]) by {
                    assert forall|w: int| 0 <= w < filters@.len() && (#[trigger] filters@[w]).idx@ == q implies !has_digit(filters@[w].mask@, s[q]) by {
                        assert(filters@[w] == filters[w]);
                        lemma_projection_keeps_solution(before, fa0, fa1, folded, s, w / 9, w % 9 / 3, w % 3);
                    }
                    lemma_filters_keep(before, filters@, q, s[q]);
                }
            }
        }
    }

    /// One propagation pass. Each cell is checked; a known cell's digit is removed from its
    /// neighbours; an unknown cell with a single candidate, or with a unique candidate in
    /// its row, column or box, becomes known. Then every band goes through line
    /// projection. Fails with the first inconsistency met, and otherwise tells whether the
    /// board changed; when it did not, the board is a fixpoint: every cell is settled and
    /// no line projection applies to any band. The pass is sound: when the board admits a
    /// solved board (every cell valid and holding that board's digit), the pass succeeds and
    /// the board still admits it.
    pub fn propagate_step(&mut self) -> (r: Result<bool, CandidateError>)
        ensures
            narrowed(final(self)@, old(self)@),
            r == Ok::<bool, CandidateError>(false) ==> final(self)@ == old(self)@,
            r == Ok::<bool, CandidateError>(true) ==> final(self)@ != old(self)@,
            r == Ok::<bool, CandidateError>(false) ==> fixpoint(final(self)@),
            r matches Err(e) ==> shows_error(final(self)@, e),
            forall|s: Seq<int>| #[trigger] is_solution(s) && admits(old(self)@, s) ==> r is Ok && admits(final(self)@, s),
    {
        let start = *self;
        let ghost s0 = self@;
        proof {
            lemma_narrowed_refl(s0);
        }
        let mut p: usize = 0;
        while p < 81
            invariant
                p <= 81,
                narrowed(self@, s0),
                start@ == s0,
                s0 == old(self)@,
                forall|q: int| 0 <= q < p ==> #[trigger] settled(s0, q) || self@ != s0,
                forall|s: Seq<int>| #[trigger] is_solution(s) && admits(s0, s) ==> admits(self@, s),
            decreases 81 - p,
        {
            let idx = GridIdx::new_unchecked(p);
            let cell = self.get_cell(idx);
            if let Err(e) = cell.check() {
                proof {
                    assert(check_word(self@[p as int]) == Err::<(), CandidateError>(e));
                    assert forall|s: Seq<int>| #[trigger] is_solution(s) && admits(s0, s) implies false by {
                        assert(admits(self@, s));
                        assert(valid_word(self@[p as int]));
                    }
                }
                return Err(e);
            }
            let ghost before = *self;
            if cell.is_known() {
                proof {
                    lemma_top_digit(cell@, 10);
                }
                let n = Num::new_unchecked(top_digit(cell.to_u16()));
                self.spread_known(n, idx);
                proof {
                    if self@ == s0 {
                        lemma_sandwich(self@, before@, s0);
                    }
                    assert forall|s: Seq<int>| #[trigger] is_solution(s) && admits(s0, s) implies admits(self@, s) by {
                        assert(admits(before@, s));
                        lemma_spread_admits(before@, self@, p as int, s);
                    }
                }
            } else if let Some(_) = cell.single_candidate() {
                let mut promoted = cell;
                promoted.set_known_bit();
                proof {
                    lemma_set_flag(cell@);
                    lemma_high_bits_flag(cell@);
                }
                self.set_cell(idx, promoted);
                proof {
                    assert(self@[p as int] != before@[p as int]);
                    if self@ == s0 {
                        lemma_sandwich(self@, before@, s0);
                    }
                    assert forall|s: Seq<int>| #[trigger] is_solution(s) && admits(s0, s) implies admits(self@, s) by {
                        assert(admits(before@, s));
                        assert(has_digit(before@[p as int], s[p as int]));
                    }
                }
            } else {
                match self.unique_candidate(idx) {
                    Err(e) => {
                        proof {
                            assert(grid_outcome(self@, p as int) == Err::<Option<int>, CandidateError>(e));
                            assert forall|s: Seq<int>| #[trigger] is_solution(s) && admits(s0, s) implies false by {
                                assert(admits(self@, s));
                                lemma_finder_sound(self@, s, p as int);
                            }
                        }
                        return Err(e);
                    },
                    Ok(None) => {},
                    Ok(Some(n)) => {
                        proof {
                            lemma_outcome_digit(self@, p as int, n@);
                        }
                        let known = Cell::new_known(n);
                        proof {
                            lemma_digit_bit(n@);
                            lemma_high_bits_small(cell@);
                            lemma_high_bits_small(known@);
                        }
                        self.set_cell(idx, known);
                        proof {
                            assert(self@[p as int] != before@[p as int]);
                            if self@ == s0 {
                                lemma_sandwich(self@, before@, s0);
                            }
                            assert forall|s: Seq<int>| #[trigger] is_solution(s) && admits(s0, s) implies admits(self@, s) by {
                                assert(admits(before@, s));
                                lemma_finder_sound(before@, s, p as int);
                                assert(n@ == s[p as int]);
                            }
                        }
                    },
                }
            }
            proof {
                lemma_narrowed_trans(self@, before@, s0);
                assert forall|q: int| 0 <= q < p + 1 implies #[trigger] settled(s0, q) || self@ != s0 by {
                    if self@ == s0 {
                        lemma_sandwich(self@, before@, s0);
                    }
                }
            }
            p = p + 1;
        }
        let mut a: usize = 0;
        while a < 6
            invariant
                a <= 6,
                narrowed(self@, s0),
                start@ == s0,
                s0 == old(self)@,
                forall|q: int| 0 <= q < 81 ==> #[trigger] settled(s0, q) || self@ != s0,
                forall|b: int| 0 <= b < a ==> #[trigger] band_settled(s0, b) || self@ != s0,
                forall|s: Seq<int>| #[trigger] is_solution(s) && admits(s0, s) ==> admits(self@, s),
            decreases 6 - a,
        {
            let ghost before = *self;
            self.project_area(Idx::new_unchecked(a));
            proof {
                assert forall|s: Seq<int>| #[trigger] is_solution(s) && admits(s0, s) implies admits(self@, s) by {
                    assert(admits(before@, s));
                    assert(forall|q: int| 0 <= q < 81 ==> has_digit(#[trigger] before@[q], s[q]));
                    lemma_admits_filtered(before@, self@, s);
                }
                lemma_narrowed_trans(self@, before@, s0);
                if self@ == s0 {
                    lemma_sandwich(self@, before@, s0);
                }
                assert forall|b: int| 0 <= b < a + 1 implies #[trigger] band_settled(s0, b) || self@ != s0 by {
                    if self@ == s0 {
                        lemma_sandwich(self@, before@, s0);
                    }
                }
            }
            a = a + 1;
        }
        if self.same_words(&start) {
            Ok(false)
        } else {
            Ok(true)
        }
    }

    /// Runs propagation passes until one changes nothing or meets an inconsistency. On
    /// success the board is a fixpoint: every cell is settled (valid, with a known digit
    /// absent from its neighbours, or unknown with two or more candidates and no unique
    /// one), and no line projection applies to any band. An error is one the final board
    /// shows. Propagation is sound: a solved board that the board admits is never lost, and
    /// while there is one, no error comes.
    pub fn solve(&mut self) -> (r: Result<(), CandidateError>)
        ensures
            narrowed(final(self)@, old(self)@),
            r is Ok ==> fixpoint(final(self)@),
            r matches Err(e) ==> shows_error(final(self)@, e),
            forall|s: Seq<int>| #[trigger] is_solution(s) && admits(old(self)@, s) ==> r is Ok && admits(final(self)@, s),
    {
        let ghost start = *self;
        proof {
            lemma_narrowed_refl(self@);
        }
        loop
            invariant
                narrowed(self@, start@),
                start@ == old(self)@,
                forall|s: Seq<int>| #[trigger] is_solution(s) && admits(start@, s) ==> admits(self@, s),
            decreases freedom(self@),
        {
            let ghost before = *self;
            match self.propagate_step() {
                Err(e) => {
                    proof {
                        lemma_narrowed_trans(self@, before@, start@);
                        assert forall|s: Seq<int>| #[trigger] is_solution(s) && admits(start@, s) implies false by {
                            assert(admits(before@, s));
                        }
                    }
                    return Err(e);
                },
                Ok(false) => {
                    proof {
                        lemma_narrowed_trans(self@, before@, start@);
                        assert forall|s: Seq<int>| #[trigger] is_solution(s) && admits(start@, s) implies admits(self@, s) by {
                            assert(admits(before@, s));
                        }
                    }
                    return Ok(());
                },
                Ok(true) => {
                    proof {
                        assert forall|s: Seq<int>| #[trigger] is_solution(s) && admits(start@, s) implies admits(self@, s) by {
                            assert(admits(before@, s));
                        }
                        lemma_narrowed_trans(self@, before@, start@);
                        assert(exists|p: int| 0 <= p < 81 && self@[p] != before@[p]) by {
                            if forall|p: int| 0 <= p < 81 ==> self@[p] == before@[p] {
                                assert(self@ =~= before@);
                            }
                        }
                        lemma_freedom_drops(self@, before@, 81);
                    }
                },
            }
        }
    }
}

/// The digit found by the unique-candidate finder is a candidate of the cell.
proof fn lemma_outcome_digit(g: Seq<u16>, p: int, n: int)
    requires
        0 <= p < 81,
        g.len() == 81,
        crate::grid::grid_outcome(g, p) == Ok::<Option<int>, CandidateError>(Some(n)),
    ensures
        has_digit(g[p], n),
{
    let row = section_outcome(section_words(g, SectionKind::Row, p / 9), p % 9);
    let col = section_outcome(section_words(g, SectionKind::Column, p % 9), p / 9);
    let bx = section_outcome(section_words(g, SectionKind::Box, box_of(p)), box_inner_of(p));
    let hit = Ok::<Option<int>, CandidateError>(Some(n));
    if bx == hit {
        lemma_section_digit(section_words(g, SectionKind::Box, box_of(p)), box_inner_of(p), n);
        lemma_box_pos(p);
    } else if col == hit {
        lemma_section_digit(section_words(g, SectionKind::Column, p % 9), p / 9, n);
    } else {
        assert(row == hit);
        lemma_section_digit(section_words(g, SectionKind::Row, p / 9), p % 9, n);
    }
}

/// The digit a section's finder reports is a candidate of the cell.
proof fn lemma_section_digit(words: Seq<u16>, i: int, n: int)
    requires
        section_outcome(words, i) == Ok::<Option<int>, CandidateError>(Some(n)),
    ensures
        has_digit(words[i], n),
{
    lemma_some_unique(words, i, 10);
}

/// A positive count of unique digits below `k` has a witness.
proof fn lemma_some_unique(words: Seq<u16>, i: int, k: int)
    requires
        uniques_below(words, i, k) > 0,
    ensures
        exists|d: int| #[trigger] unique_in(words, i, d),
    decreases k,
{
    if k > 1 && !unique_in(words, i, k - 1) {
        lemma_some_unique(words, i, k - 1);
    }
}

/// A cell's box and its place in the box lead back to the cell.
proof fn lemma_box_pos(p: int)
    requires
        0 <= p < 81,
    ensures
        section_pos(SectionKind::Box, box_of(p), box_inner_of(p)) == p,
{
    let r = p / 9;
    let c = p % 9;
    assert(box_of(p) / 3 == r / 3 && box_of(p) % 3 == c / 3);
    assert(box_inner_of(p) / 3 == r % 3 && box_inner_of(p) % 3 == c % 3);
}

proof fn lemma_high_bits_flag(w: u16)
    by (bit_vector)
    ensures
        (w | 1) >> 10 == w >> 10,
{
}

proof fn lemma_high_bits_small(w: u16)
    by (bit_vector)
    requires
        w < 1024,
    ensures
        w >> 10 == 0,
{
}

/// Seeds a grid from `board` and runs the propagation loop. Gives the board that the
/// resulting fixpoint shows (known cells as digits, `0` elsewhere), or the inconsistency
/// that propagation met. An error comes only when no solved board agrees with the givens,
/// and every digit of the result agrees with every solved board that does.
pub fn propagate_board(board: Board) -> (r: Result<Board, CandidateError>)
    ensures
        r is Err ==> !exists|s: Seq<int>| #[trigger] fits_givens(s, board@),
        r matches Ok(b) ==> forall|s: Seq<int>| #[trigger] fits_givens(s, board@) ==> forall|p: int|
            0 <= p < 81 && b@[p] != 0 ==> #[trigger] b@[p] == s[p],
        r matches Ok(b) ==> exists|g: Seq<u16>| #[trigger] narrowed(g, seed_words(board@)) && fixpoint(g)
            && b@ == g.map_values(|w: u16| board_digit(w)),
        r matches Err(e) ==> exists|g: Seq<u16>| #[trigger] narrowed(g, seed_words(board@)) && shows_error(g, e),
{
    let ghost digits = board@;
    proof {
        Board::lemma_digits(board);
    }
    let mut grid = Grid::from(board);
    proof {
        assert forall|s: Seq<int>| #[trigger] fits_givens(s, digits) implies admits(grid@, s) by {
            lemma_seed_admits(digits, s);
        }
    }
    let ghost seeded = grid@;
    match grid.solve() {
        Ok(()) => {
            let b = grid.to_board();
            proof {
                assert(narrowed(grid@, seed_words(digits)));
                assert forall|s: Seq<int>| #[trigger] fits_givens(s, digits) implies forall|p: int|
                    0 <= p < 81 && b@[p] != 0 ==> #[trigger] b@[p] == s[p] by {
                    assert(admits(seeded, s));
                    assert(admits(grid@, s));
                    assert forall|p: int| 0 <= p < 81 && b@[p] != 0 implies #[trigger] b@[p] == s[p] by {
                        let w = grid@[p];
                        assert(b@[p] == board_digit(w));
                        assert(known_flag(w));
                        lemma_top_digit(w, 10);
                        crate::word::lemma_count_one(w, 10, shown_digit(w), s[p]);
                    }
                }
            }
            Ok(b)
        },
        Err(e) => {
            proof {
                assert(narrowed(grid@, seed_words(digits)));
                assert forall|s: Seq<int>| !#[trigger] fits_givens(s, digits) by {
                    if fits_givens(s, digits) {
                        assert(admits(seeded, s));
                    }
                }
            }
            Err(e)
        },
    }
}

/// The grid seeded from a board admits every solved board that agrees with the givens.
proof fn lemma_seed_admits(digits: Seq<u8>, s: Seq<int>)
    requires
        digits.len() == 81,
        forall|i: int| 0 <= i < 81 ==> #[trigger] digits[i] <= 9,
        fits_givens(s, digits),
    ensures
        admits(seed_words(digits), s),
{
    crate::word::lemma_all_candidate_digits();
    assert forall|p: int| 0 <= p < 81 implies valid_word(#[trigger] seed_words(digits)[p]) && has_digit(seed_words(digits)[p], s[p]) by {
        let d = digits[p];
        if d == 0 {
            crate::word::lemma_count_zero(ALL_CANDIDATES, 10);
            assert(has_digit(ALL_CANDIDATES, 1));
            lemma_all_flags();
        } else {
            lemma_digit_bit(d as int);
            crate::word::lemma_count_single(digit_bit(d as int) | 1, d as int, 10);
        }
    }
}

proof fn lemma_all_flags()
    by (bit_vector)
    ensures
        0x3feu16 & 1 == 0,
        0x3feu16 < 1024,
{
}

/// A solver that seeds a grid from the board and runs the propagation loop.
pub struct Propagator {
    grid: Grid,
}

impl Solver for Propagator {
    fn init(board: Board) -> Propagator {
        Propagator { grid: Grid::from(board) }
    }

    /// The `Solver` interface has no room for an error: an inconsistent puzzle gives the
    /// board as far as propagation got. [`propagate_board`] reports the inconsistency.
    fn solve(self) -> Board {
        let mut grid = self.grid;
        let _ = grid.solve();
        grid.to_board()
    }
}

} // verus!
