use vstd::prelude::*;

verus! {

/// A sudoku digit, always in `1..=9`.
#[derive(Debug, Clone, Copy, PartialEq, Eq, Structural)]
pub struct Num(u8);

/// Why a byte could not become a [`Num`].
#[derive(Debug, Clone, Copy, PartialEq, Eq, Structural)]
pub enum NumErr {
    /// The value was `0`.
    Zero,
    /// The value was above `9`.
    TooBig,
}

impl Num {
    /// The digit as a mathematical integer.
    pub closed spec fn view(self) -> int {
        if 1 <= self.0 <= 9 {
            self.0 as int
        } else {
            1
        }
    }

    #[verifier::type_invariant]
    spec fn in_range(self) -> bool {
        1 <= self.0 <= 9
    }

    /// Every digit lies in `1..=9`.
    pub broadcast proof fn lemma_range(n: Num)
        ensures
            1 <= #[trigger] n@ <= 9,
    {
    }

    /// Creates a digit, failing for `0` and for values above `9`.
    pub fn new(n: u8) -> (r: Result<Num, NumErr>)
        ensures
            n == 0 ==> r == Err::<Num, NumErr>(NumErr::Zero),
            n > 9 ==> r == Err::<Num, NumErr>(NumErr::TooBig),
            1 <= n <= 9 ==> (r matches Ok(d) && d@ == n),
    {
        if n == 0 {
            Err(NumErr::Zero)
        } else if n > 9 {
            Err(NumErr::TooBig)
        } else {
            Ok(Num(n))
        }
    }

    /// Creates a digit from a value the caller knows to be in `1..=9`.
    pub fn new_unchecked(n: u8) -> (r: Num)
        requires
            1 <= n <= 9,
        ensures
            r@ == n,
    {
        Num(n)
    }

    /// The digit's value.
    pub fn value(self) -> (r: u8)
        ensures
            r == self@,
            1 <= r <= 9,
    {
        proof {
            use_type_invariant(&self);
        }
        self.0
    }
}

} // verus!
