//! The meaning of a cell's 16-bit word: bit 0 is the known flag, bits 1 to 9 are the
//! candidates for the digits 1 to 9, and bits 10 to 15 must stay clear.
use vstd::prelude::*;

verus! {

/// The nine candidate bits, `0b111_111_111_0`.
pub const ALL_CANDIDATES: u16 = 0x3fe;

/// Whether digit `d` is a candidate in the word `w`.
pub open spec fn has_digit(w: u16, d: int) -> bool {
    1 <= d <= 9 && (w >> (d as u16)) & 1 == 1
}

/// Whether the known flag of `w` is set.
pub open spec fn known_flag(w: u16) -> bool {
    w & 1 == 1
}

/// Whether any of the six unused high bits of `w` is set.
pub open spec fn has_banned_bits(w: u16) -> bool {
    w >= 1024
}

/// The word whose only set bit is the candidate bit of digit `d`.
pub open spec fn digit_bit(d: int) -> u16 {
    1u16 << (d as u16)
}

/// How many of the digits `1..k` are candidates in `w`.
pub open spec fn digits_below(w: u16, k: int) -> nat
    decreases k,
{
    if k <= 1 {
        0
    } else {
        digits_below(w, k - 1) + if has_digit(w, k - 1) {
            1nat
        } else {
            0nat
        }
    }
}

/// How many candidate bits `w` has.
pub open spec fn candidate_count(w: u16) -> nat {
    digits_below(w, 10)
}

/// Single bits of `&`, `|`, `^` and `!` on words.
pub proof fn lemma_bit_ops(a: u16, b: u16, d: u16)
    by (bit_vector)
    requires
        d < 16,
    ensures
        ((a & b) >> d) & 1 == 1 <==> ((a >> d) & 1 == 1 && (b >> d) & 1 == 1),
        ((a | b) >> d) & 1 == 1 <==> ((a >> d) & 1 == 1 || (b >> d) & 1 == 1),
        ((a ^ b) >> d) & 1 == 1 <==> ((a >> d) & 1 == 1) != ((b >> d) & 1 == 1),
        ((!a) >> d) & 1 == 1 <==> !((a >> d) & 1 == 1),
        (a >> d) & 1 != 1 ==> (a >> d) & 1 == 0,
{
}

/// Digit membership of `&`, `|`, `^` and of clearing with a mask.
pub proof fn lemma_digit_ops(a: u16, b: u16)
    ensures
        forall|d: int| #[trigger] has_digit(a & b, d) <==> (has_digit(a, d) && has_digit(b, d)),
        forall|d: int| #[trigger] has_digit(a | b, d) <==> (has_digit(a, d) || has_digit(b, d)),
        forall|d: int| #[trigger] has_digit(a ^ b, d) <==> (1 <= d <= 9 && has_digit(a, d) != has_digit(b, d)),
        forall|d: int| #[trigger] has_digit(a & !b, d) <==> (has_digit(a, d) && !has_digit(b, d)),
{
    assert forall|d: int| #[trigger] has_digit(a & b, d) <==> (has_digit(a, d) && has_digit(b, d)) by {
        if 1 <= d <= 9 {
            lemma_bit_ops(a, b, d as u16);
        }
    }
    assert forall|d: int| #[trigger] has_digit(a | b, d) <==> (has_digit(a, d) || has_digit(b, d)) by {
        if 1 <= d <= 9 {
            lemma_bit_ops(a, b, d as u16);
        }
    }
    assert forall|d: int| #[trigger] has_digit(a ^ b, d) <==> (1 <= d <= 9 && has_digit(a, d) != has_digit(b, d)) by {
        if 1 <= d <= 9 {
            lemma_bit_ops(a, b, d as u16);
        }
    }
    assert forall|d: int| #[trigger] has_digit(a & !b, d) <==> (has_digit(a, d) && !has_digit(b, d)) by {
        if 1 <= d <= 9 {
            lemma_bit_ops(a, !b, d as u16);
            lemma_bit_ops(b, b, d as u16);
        }
    }
}

/// Clearing bits that lie among the candidate bits keeps the known flag and the high bits.
pub proof fn lemma_clear_keeps_flags(a: u16, m: u16)
    by (bit_vector)
    requires
        m & !ALL_CANDIDATES == 0,
    ensures
        (a & !m) & 1 == a & 1,
        ((a & !m) >= 1024) == (a >= 1024),
        (a | m) & 1 == a & 1,
        ((a | m) >= 1024) == (a >= 1024),
        (a & !m) >> 10 == a >> 10,
{
}

/// Setting the known flag keeps every candidate bit and the high bits.
pub proof fn lemma_set_flag(a: u16)
    ensures
        forall|d: int| #[trigger] has_digit(a | 1, d) == has_digit(a, d),
        (a | 1) & 1 == 1,
        ((a | 1) >= 1024) == (a >= 1024),
{
    assert forall|d: int| #[trigger] has_digit(a | 1, d) == has_digit(a, d) by {
        if 1 <= d <= 9 {
            lemma_bit_ops(a, 1, d as u16);
            lemma_low_bit(d as u16);
        }
    }
    assert((a | 1) & 1 == 1) by (bit_vector);
    assert(((a | 1) >= 1024) == (a >= 1024)) by (bit_vector);
}

proof fn lemma_low_bit(d: u16)
    by (bit_vector)
    requires
        1 <= d < 16,
    ensures
        (1u16 >> d) & 1 == 0,
{
}

/// The digit bit of `n` has `n` as its one candidate and lies among the candidate bits.
pub proof fn lemma_digit_bit(n: int)
    requires
        1 <= n <= 9,
    ensures
        forall|d: int| #[trigger] has_digit(digit_bit(n), d) <==> d == n,
        forall|d: int| #[trigger] has_digit(digit_bit(n) | 1, d) <==> d == n,
        digit_bit(n) & !ALL_CANDIDATES == 0,
        digit_bit(n) & 1 == 0,
        digit_bit(n) < 1024,
        (digit_bit(n) | 1) & 1 == 1,
        (digit_bit(n) | 1) < 1024,
{
    let nn = n as u16;
    assert forall|d: int| #[trigger] has_digit(digit_bit(n), d) <==> d == n by {
        if 1 <= d <= 9 {
            lemma_shifted_bit(nn, d as u16);
        }
    }
    lemma_set_flag(digit_bit(n));
    lemma_shifted_bit(nn, 0);
}

proof fn lemma_shifted_bit(n: u16, d: u16)
    by (bit_vector)
    requires
        1 <= n <= 9,
        d < 16,
    ensures
        ((1u16 << n) >> d) & 1 == 1 <==> d == n,
        (1u16 << n) & !0x3feu16 == 0,
        (1u16 << n) & 1 == 0,
        (1u16 << n) < 1024,
{
}

/// Words with the same candidate digits have the same count below any bound.
pub proof fn lemma_count_same(a: u16, b: u16, k: int)
    requires
        forall|d: int| 1 <= d < k ==> has_digit(a, d) == has_digit(b, d),
    ensures
        digits_below(a, k) == digits_below(b, k),
    decreases k,
{
    if k > 1 {
        lemma_count_same(a, b, k - 1);
    }
}

/// A word whose only candidate is `n` has one candidate.
pub proof fn lemma_count_single(w: u16, n: int, k: int)
    requires
        1 <= n <= 9,
        forall|d: int| 1 <= d <= 9 ==> (has_digit(w, d) <==> d == n),
    ensures
        digits_below(w, k) == if n < k { 1nat } else { 0nat },
    decreases k,
{
    if k > 1 {
        lemma_count_single(w, n, k - 1);
    }
}

/// A count of zero below `k` means no digit below `k` is a candidate.
pub proof fn lemma_count_zero(w: u16, k: int)
    requires
        k <= 10,
    ensures
        digits_below(w, k) == 0 <==> forall|d: int| 1 <= d < k ==> !has_digit(w, d),
    decreases k,
{
    if k > 1 {
        lemma_count_zero(w, k - 1);
    }
}

/// With one candidate below `k`, any two candidates below `k` coincide.
pub proof fn lemma_count_one(w: u16, k: int, d: int, e: int)
    requires
        k <= 10,
        digits_below(w, k) == 1,
        1 <= d < k,
        1 <= e < k,
        has_digit(w, d),
        has_digit(w, e),
    ensures
        d == e,
    decreases k,
{
    if k > 1 {
        if d < k - 1 && e < k - 1 {
            if has_digit(w, k - 1) {
                lemma_count_zero(w, k - 1);
            } else {
                lemma_count_one(w, k - 1, d, e);
            }
        } else if d < k - 1 || e < k - 1 {
            lemma_count_zero(w, k - 1);
        }
    }
}

/// Fewer candidate digits give a lower count; strictly fewer give a strictly lower count.
pub proof fn lemma_count_subset(a: u16, b: u16, k: int)
    requires
        forall|d: int| #[trigger] has_digit(a, d) ==> has_digit(b, d),
    ensures
        digits_below(a, k) <= digits_below(b, k),
        (exists|d: int| 1 <= d < k && has_digit(b, d) && !has_digit(a, d)) ==> digits_below(a, k)
            < digits_below(b, k),
    decreases k,
{
    if k > 1 {
        lemma_count_subset(a, b, k - 1);
        if exists|d: int| 1 <= d < k && has_digit(b, d) && !has_digit(a, d) {
            let d = choose|d: int| 1 <= d < k && has_digit(b, d) && !has_digit(a, d);
            if d < k - 1 {
                assert(digits_below(a, k - 1) < digits_below(b, k - 1));
            }
        }
    }
}

/// The empty word has no digit and lies among the candidate bits.
pub proof fn lemma_zero_no_digit()
    ensures
        forall|d: int| !#[trigger] has_digit(0u16, d),
        0u16 & !ALL_CANDIDATES == 0,
        0u16 & ALL_CANDIDATES == 0,
{
    assert forall|d: int| !#[trigger] has_digit(0u16, d) by {
        if 1 <= d <= 9 {
            lemma_zero_bit(d as u16);
        }
    }
    assert(0u16 & !ALL_CANDIDATES == 0) by (bit_vector);
    assert(0u16 & ALL_CANDIDATES == 0) by (bit_vector);
}

/// Every digit is among the candidate bits.
pub proof fn lemma_all_candidate_digits()
    ensures
        forall|d: int| 1 <= d <= 9 ==> #[trigger] has_digit(ALL_CANDIDATES, d),
{
    assert forall|d: int| 1 <= d <= 9 implies #[trigger] has_digit(ALL_CANDIDATES, d) by {
        lemma_candidate_bit(d as u16);
    }
}

proof fn lemma_zero_bit(d: u16)
    by (bit_vector)
    requires
        d < 16,
    ensures
        (0u16 >> d) & 1 == 0,
{
}

proof fn lemma_candidate_bit(d: u16)
    by (bit_vector)
    requires
        1 <= d <= 9,
    ensures
        (0x3feu16 >> d) & 1 == 1,
{
}

/// Keeping the candidate bits of a word leaves only candidate bits.
pub proof fn lemma_and_all(w: u16)
    by (bit_vector)
    ensures
        (w & 0x3feu16) & !0x3feu16 == 0,
        (w & 0x3feu16) & 1 == 0,
        (w & 0x3feu16) < 1024,
{
}

/// A word of candidate bits is unchanged by keeping the candidate bits.
pub proof fn lemma_mask_exact(m: u16)
    by (bit_vector)
    requires
        m & !0x3feu16 == 0,
    ensures
        m & 0x3feu16 == m,
{
}

/// The union of two words of candidate bits has candidate bits only.
pub proof fn lemma_or_within(m: u16, a: u16)
    by (bit_vector)
    requires
        m & !0x3feu16 == 0,
        a & !0x3feu16 == 0,
    ensures
        (m | a) & !0x3feu16 == 0,
{
}

} // verus!
