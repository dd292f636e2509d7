//! Building strings from characters.
use vstd::prelude::*;

verus! {

/// The ASCII character of the decimal digit `n`.
pub open spec fn digit_char(n: int) -> char {
    (48 + n) as u8 as char
}

/// The decimal representation of `n`, without leading zeros.
pub open spec fn decimal(n: nat) -> Seq<char>
    decreases n,
{
    if n < 10 {
        seq![digit_char(n as int)]
    } else {
        decimal(n / 10) + seq![digit_char((n % 10) as int)]
    }
}

/// Relies on `String`'s `FromIterator<&char>` impl (through `Iterator::collect`): the string
/// holds the given characters in order.
#[verifier::external_body]
pub(crate) fn string_from_chars(chars: &Vec<char>) -> (r: String)
    ensures
        r@ == chars@,
{
    chars.iter().collect()
}

/// The character of the decimal digit `n`.
pub fn digit_to_char(n: u8) -> (r: char)
    requires
        n <= 9,
    ensures
        r == digit_char(n as int),
{
    (48 + n) as char
}

/// The decimal representation of `n`.
pub fn decimal_string(n: usize) -> (r: String)
    ensures
        r@ == decimal(n as nat),
{
    let mut acc: Vec<char> = Vec::new();
    let mut m = n;
    while m >= 10
        invariant
            decimal(n as nat) == decimal(m as nat) + acc@,
        decreases m,
    {
        let c = digit_to_char((m % 10) as u8);
        proof {
            assert(decimal(m as nat) == decimal((m / 10) as nat) + seq![c]);
            assert(decimal((m / 10) as nat) + seq![c] + acc@ =~= decimal((m / 10) as nat) + (seq![c] + acc@));
        }
        acc.insert(0, c);
        m = m / 10;
    }
    let c = digit_to_char(m as u8);
    proof {
        assert(decimal(m as nat) == seq![c]);
    }
    acc.insert(0, c);
    proof {
        assert(acc@ =~= seq![c] + (acc@.subrange(1, acc@.len() as int)));
    }
    string_from_chars(&acc)
}

} // verus!
