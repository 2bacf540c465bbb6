//! Finite double-precision numbers, held as bit patterns.
//!
//! Sums, differences, products and quotients are the numbers nearest to the exact
//! results, ties going to the even significand. An operation whose result would be infinite has no
//! result. Zero has no sign.

use crate::rounding::{
    add_up, divide, from_whole, lemma_order, lemma_rounded_below, lemma_whole_finite, multiply,
    take_away, INFINITE,
};
#[allow(unused_imports)]
use crate::rounding::{
    difference_of, magnitude, product_of, quotient_of, rounded, sum_of, whole_of,
};
use vstd::prelude::*;

verus! {

/// The sign bit of a pattern.
pub const SIGN: u64 = 0x8000_0000_0000_0000;

/// The pattern of the largest finite number.
pub const LARGEST: u64 = 0x7fef_ffff_ffff_ffff;

/// The pattern of one.
pub const ONE: u64 = 0x3ff0_0000_0000_0000;

/// A finite number that is not negative.
#[derive(Clone, Copy, PartialEq, Eq, Structural, PartialOrd, Ord, Debug, Hash)]
pub struct NonNegativeF64 {
    bits: u64,
}

/// A finite number above zero.
#[derive(Clone, Copy, PartialEq, Eq, Structural, PartialOrd, Ord, Debug, Hash)]
pub struct PositiveF64 {
    bits: u64,
}

/// A finite number.
#[derive(Clone, Copy, PartialEq, Eq, Structural, Debug, Hash)]
pub struct FinF64 {
    negative: bool,
    bits: u64,
}

impl View for NonNegativeF64 {
    type V = u64;

    closed spec fn view(&self) -> u64 {
        self.bits
    }
}

impl View for PositiveF64 {
    type V = u64;

    closed spec fn view(&self) -> u64 {
        self.bits
    }
}

impl View for FinF64 {
    type V = (bool, u64);

    closed spec fn view(&self) -> (bool, u64) {
        (self.negative, self.bits)
    }
}

/// The exact value of a signed number, in units of `2^-1074`.
pub open spec fn signed_magnitude(x: (bool, u64)) -> int {
    if x.0 {
        -(magnitude(x.1 as nat) as int)
    } else {
        magnitude(x.1 as nat) as int
    }
}

/// The number of the given sign and magnitude, zero being unsigned.
pub open spec fn with_sign(negative: bool, bits: u64) -> (bool, u64) {
    (negative && bits != 0, bits)
}

/// The sum of two signed numbers.
pub open spec fn signed_sum_of(x: (bool, u64), y: (bool, u64)) -> Option<(bool, u64)> {
    let v = signed_magnitude(x) + signed_magnitude(y);
    match rounded((if v < 0 {
        -v
    } else {
        v
    }) as nat, 1) {
        Some(bits) => Some(with_sign(v < 0, bits)),
        None => None,
    }
}

/// The product of a signed number and one that is not negative.
pub open spec fn signed_product_of(x: (bool, u64), y: u64) -> Option<(bool, u64)> {
    match product_of(x.1, y) {
        Some(bits) => Some(with_sign(x.0, bits)),
        None => None,
    }
}

impl NonNegativeF64 {
    /// The number with the given pattern.
    pub closed spec fn of(bits: u64) -> Self {
        NonNegativeF64 { bits }
    }

    #[verifier::type_invariant]
    spec fn finite(self) -> bool {
        self.bits < INFINITE
    }

    /// A number has the pattern that it was made of.
    pub broadcast proof fn lemma_of(bits: u64)
        ensures
            (#[trigger] Self::of(bits))@ == bits,
    {
    }

    /// A number is determined by its pattern.
    pub broadcast proof fn lemma_of_view(self)
        ensures
            Self::of(#[trigger] self@) == self,
    {
    }

    /// Zero.
    pub fn zero() -> (r: Self)
        ensures
            r == Self::of(0),
    {
        NonNegativeF64 { bits: 0 }
    }

    /// The largest finite number.
    pub fn largest() -> (r: Self)
        ensures
            r == Self::of(LARGEST),
    {
        NonNegativeF64 { bits: LARGEST }
    }

    /// Reads a double-precision bit pattern; negative zero counts as zero.
    pub fn from_bits(bits: u64) -> (r: Option<Self>)
        ensures
            r == if bits < INFINITE {
                Some(Self::of(bits))
            } else if bits == SIGN {
                Some(Self::of(0))
            } else {
                None
            },
    {
        if bits < INFINITE {
            Some(NonNegativeF64 { bits })
        } else if bits == SIGN {
            Some(NonNegativeF64 { bits: 0 })
        } else {
            None
        }
    }

    /// The double-precision bit pattern.
    pub fn to_bits(&self) -> (r: u64)
        ensures
            r == self@,
            r < INFINITE,
    {
        proof {
            use_type_invariant(self);
        }
        self.bits
    }

    /// The number nearest to a whole number.
    pub fn from_int(n: u64) -> (r: Self)
        ensures
            Some(r@) == whole_of(n),
    {
        proof {
            lemma_whole_finite(n);
        }
        match from_whole(n) {
            Some(bits) => NonNegativeF64 { bits },
            None => NonNegativeF64 { bits: 0 },
        }
    }

    /// Whether the number is zero.
    pub fn is_zero(&self) -> (r: bool)
        ensures
            r == (self@ == 0),
    {
        self.bits == 0
    }

    /// The sum, unless it is infinite.
    pub fn plus(self, other: Self) -> (r: Option<Self>)
        ensures
            r == option_of(sum_of(self@, other@)),
    {
        match add_up(self.bits, other.bits) {
            Some(bits) => Some(NonNegativeF64 { bits }),
            None => None,
        }
    }

    /// The difference, or zero where it would be negative.
    pub fn minus_or_zero(self, other: Self) -> (r: Self)
        ensures
            r == Self::of(difference_or_zero(self@, other@)),
    {
        proof {
            use_type_invariant(&self);
        }
        if self.bits <= other.bits {
            NonNegativeF64 { bits: 0 }
        } else {
            proof {
                lemma_order(other.bits as nat, self.bits as nat);
                lemma_rounded_below(
                    (magnitude(self.bits as nat) - magnitude(other.bits as nat)) as nat,
                    1,
                    self.bits,
                );
            }
            match take_away(self.bits, other.bits) {
                Some(bits) => NonNegativeF64 { bits },
                None => NonNegativeF64 { bits: 0 },
            }
        }
    }

    /// The product, unless it is infinite.
    pub fn times(self, other: Self) -> (r: Option<Self>)
        ensures
            r == option_of(product_of(self@, other@)),
    {
        match multiply(self.bits, other.bits) {
            Some(bits) => Some(NonNegativeF64 { bits }),
            None => None,
        }
    }

    /// The quotient, unless it is infinite.
    pub fn over(self, divisor: PositiveF64) -> (r: Option<Self>)
        ensures
            r == option_of(quotient_of(self@, divisor@)),
    {
        match divide(self.bits, divisor.bits) {
            Some(bits) => Some(NonNegativeF64 { bits }),
            None => None,
        }
    }
}

/// The number with the given pattern, if there is one.
pub open spec fn option_of(bits: Option<u64>) -> Option<NonNegativeF64> {
    match bits {
        Some(b) => Some(NonNegativeF64::of(b)),
        None => None,
    }
}

/// The difference of two numbers, or zero where it would be negative.
pub open spec fn difference_or_zero(a: u64, b: u64) -> u64 {
    if a <= b {
        0
    } else {
        match difference_of(a, b) {
            Some(bits) => bits,
            None => LARGEST,
        }
    }
}

impl PositiveF64 {
    /// The number with the given pattern.
    pub closed spec fn of(bits: u64) -> Self {
        PositiveF64 { bits }
    }

    #[verifier::type_invariant]
    spec fn finite_positive(self) -> bool {
        0 < self.bits < INFINITE
    }

    /// A number has the pattern that it was made of.
    pub broadcast proof fn lemma_of(bits: u64)
        ensures
            (#[trigger] Self::of(bits))@ == bits,
    {
    }

    /// A number is determined by its pattern.
    pub broadcast proof fn lemma_of_view(self)
        ensures
            Self::of(#[trigger] self@) == self,
    {
    }

    /// Reads a double-precision bit pattern.
    pub fn from_bits(bits: u64) -> (r: Option<Self>)
        ensures
            r == if 0 < bits < INFINITE {
                Some(Self::of(bits))
            } else {
                None
            },
    {
        if 0 < bits && bits < INFINITE {
            Some(PositiveF64 { bits })
        } else {
            None
        }
    }

    /// The double-precision bit pattern.
    pub fn to_bits(&self) -> (r: u64)
        ensures
            r == self@,
            0 < r < INFINITE,
    {
        proof {
            use_type_invariant(self);
        }
        self.bits
    }

    /// The number nearest to a whole number, if that is not zero.
    pub fn from_int(n: u64) -> (r: Option<Self>)
        ensures
            r == if n == 0 {
                None
            } else {
                Some(Self::of(whole_of(n)->0))
            },
    {
        proof {
            lemma_whole_finite(n);
        }
        if n == 0 {
            return None;
        }
        match from_whole(n) {
            Some(bits) => Some(PositiveF64 { bits }),
            None => None,
        }
    }

    /// The same number, no longer known to be positive.
    pub fn non_negative(self) -> (r: NonNegativeF64)
        ensures
            r == NonNegativeF64::of(self@),
    {
        proof {
            use_type_invariant(&self);
        }
        NonNegativeF64 { bits: self.bits }
    }

    /// Whether the number is below another.
    pub fn less(&self, other: &Self) -> (r: bool)
        ensures
            r == (self@ < other@),
            r == (magnitude(self@ as nat) < magnitude(other@ as nat)),
    {
        proof {
            lemma_order(other.bits as nat, self.bits as nat);
        }
        self.bits < other.bits
    }
}

impl FinF64 {
    /// The number with the given sign and pattern.
    pub closed spec fn of(x: (bool, u64)) -> Self {
        FinF64 { negative: x.0, bits: x.1 }
    }

    #[verifier::type_invariant]
    spec fn finite(self) -> bool {
        &&& self.bits < INFINITE
        &&& self.bits == 0 ==> !self.negative
    }

    /// A number has the pattern that it was made of.
    pub broadcast proof fn lemma_of(x: (bool, u64))
        ensures
            (#[trigger] Self::of(x))@ == x,
    {
    }

    /// A number is determined by its sign and pattern.
    pub broadcast proof fn lemma_of_view(self)
        ensures
            Self::of(#[trigger] self@) == self,
    {
    }

    /// The largest finite number.
    pub fn largest() -> (r: Self)
        ensures
            r == Self::of((false, LARGEST)),
    {
        FinF64 { negative: false, bits: LARGEST }
    }

    /// Minus one.
    pub fn minus_one() -> (r: Self)
        ensures
            r == Self::of((true, ONE)),
    {
        FinF64 { negative: true, bits: ONE }
    }

    /// Reads a double-precision bit pattern; negative zero counts as zero.
    pub fn from_bits(bits: u64) -> (r: Option<Self>)
        ensures
            r == if bits % SIGN < INFINITE {
                Some(Self::of(with_sign(bits >= SIGN, bits % SIGN)))
            } else {
                None
            },
    {
        let rest: u64 = bits % SIGN;
        if rest < INFINITE {
            Some(FinF64 { negative: bits >= SIGN && rest != 0, bits: rest })
        } else {
            None
        }
    }

    /// The double-precision bit pattern.
    pub fn to_bits(&self) -> (r: u64)
        ensures
            r == self@.1 + if self@.0 {
                SIGN
            } else {
                0
            },
    {
        proof {
            use_type_invariant(self);
        }
        if self.negative {
            self.bits + SIGN
        } else {
            self.bits
        }
    }

    /// The same number, no longer known not to be negative.
    pub fn from_non_negative(x: NonNegativeF64) -> (r: Self)
        ensures
            r == Self::of((false, x@)),
    {
        proof {
            use_type_invariant(&x);
        }
        FinF64 { negative: false, bits: x.bits }
    }

    /// The same number, if it is not negative.
    pub fn to_non_negative(self) -> (r: Option<NonNegativeF64>)
        ensures
            r == if self@.0 {
                None
            } else {
                Some(NonNegativeF64::of(self@.1))
            },
    {
        proof {
            use_type_invariant(&self);
        }
        if self.negative {
            None
        } else {
            Some(NonNegativeF64 { bits: self.bits })
        }
    }

    /// The sum, unless it is infinite.
    pub fn plus(self, other: Self) -> (r: Option<Self>)
        ensures
            r == option_of_signed(signed_sum_of(self@, other@)),
    {
        proof {
            lemma_order(self.bits as nat, other.bits as nat);
            lemma_order(other.bits as nat, self.bits as nat);
            use_type_invariant(&self);
            use_type_invariant(&other);
            assert(magnitude(0) == 0) by (nonlinear_arith);
        }
        if self.negative == other.negative {
            match add_up(self.bits, other.bits) {
                Some(bits) => Some(FinF64 { negative: self.negative && bits != 0, bits }),
                None => None,
            }
        } else if self.bits >= other.bits {
            match take_away(self.bits, other.bits) {
                Some(bits) => Some(FinF64 { negative: self.negative && bits != 0, bits }),
                None => None,
            }
        } else {
            match take_away(other.bits, self.bits) {
                Some(bits) => Some(FinF64 { negative: other.negative && bits != 0, bits }),
                None => None,
            }
        }
    }

    /// The product with a number that is not negative, unless it is infinite.
    pub fn times(self, other: NonNegativeF64) -> (r: Option<Self>)
        ensures
            r == option_of_signed(signed_product_of(self@, other@)),
    {
        match multiply(self.bits, other.bits) {
            Some(bits) => Some(FinF64 { negative: self.negative && bits != 0, bits }),
            None => None,
        }
    }
}

/// The number with the given sign and pattern, if there is one.
pub open spec fn option_of_signed(x: Option<(bool, u64)>) -> Option<FinF64> {
    match x {
        Some(v) => Some(FinF64::of(v)),
        None => None,
    }
}

/// Numbers and their patterns determine each other.
pub broadcast group group_patterns {
    NonNegativeF64::lemma_of,
    NonNegativeF64::lemma_of_view,
    PositiveF64::lemma_of,
    PositiveF64::lemma_of_view,
    FinF64::lemma_of,
    FinF64::lemma_of_view,
}

} // verus!
