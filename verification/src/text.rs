//! Numbers written as text, as the definitions of a chart give them.

use crate::num::{FinF64, NonNegativeF64, PositiveF64, SIGN};
#[allow(unused_imports)]
use crate::num::{group_patterns, with_sign};
use crate::rounding::INFINITE;
use vstd::prelude::*;

verus! {

/// What `strict_num_extended::PositiveF64::from_str` makes of a text: the bit pattern
/// of the number, or the debug form of the error.
pub uninterp spec fn positive_text(text: Seq<char>) -> Result<u64, Seq<char>>;

/// What `strict_num_extended::NonNegativeF64::from_str` makes of a text: the bit
/// pattern of the number, or the debug form of the error.
pub uninterp spec fn non_negative_text(text: Seq<char>) -> Result<u64, Seq<char>>;

/// What `strict_num_extended::FinF64::from_str` makes of a text: the bit pattern of the
/// number, or the debug form of the error.
pub uninterp spec fn finite_text(text: Seq<char>) -> Result<u64, Seq<char>>;

/// Calls `strict_num_extended::PositiveF64::from_str`.
///
/// The call trims the text, reads it as a decimal number and accepts what is finite and
/// above zero; its result depends on the text alone. Text without characters is an
/// error. The debug form of an error begins with the name of its variant, so it is not
/// empty. Which other texts are numbers is left to the name.
#[verifier::external_body]
fn parse_positive(text: &str) -> (r: Result<u64, String>)
    ensures
        match r {
            Ok(bits) => positive_text(text@) == Ok::<u64, Seq<char>>(bits),
            Err(error) => positive_text(text@) == Err::<u64, Seq<char>>(error@),
        },
        r matches Ok(bits) ==> 0 < bits < INFINITE,
        text@.len() == 0 ==> r is Err,
        r matches Err(error) ==> error@.len() > 0,
{
    match text.parse::<strict_num_extended::PositiveF64>() {
        Ok(number) => Ok(number.as_f64().to_bits()),
        Err(error) => Err(format!("{error:?}")),
    }
}

/// Calls `strict_num_extended::NonNegativeF64::from_str`.
///
/// The call trims the text, reads it as a decimal number and accepts what is finite and
/// not below zero, negative zero included; its result depends on the text alone. Text
/// without characters is an error. The debug form of an error begins with the name of its
/// variant, so it is not empty. Which other texts are numbers is left to the name.
#[verifier::external_body]
fn parse_non_negative(text: &str) -> (r: Result<u64, String>)
    ensures
        match r {
            Ok(bits) => non_negative_text(text@) == Ok::<u64, Seq<char>>(bits),
            Err(error) => non_negative_text(text@) == Err::<u64, Seq<char>>(error@),
        },
        r matches Ok(bits) ==> bits < INFINITE || bits == SIGN,
        text@.len() == 0 ==> r is Err,
        r matches Err(error) ==> error@.len() > 0,
{
    match text.parse::<strict_num_extended::NonNegativeF64>() {
        Ok(number) => Ok(number.as_f64().to_bits()),
        Err(error) => Err(format!("{error:?}")),
    }
}

/// Calls `strict_num_extended::FinF64::from_str`.
///
/// The call trims the text, reads it as a decimal number and accepts what is finite; its
/// result depends on the text alone. Text without characters is an error. The debug form
/// of an error begins with the name of its variant, so it is not empty. Which other texts
/// are numbers is left to the name.
#[verifier::external_body]
fn parse_finite(text: &str) -> (r: Result<u64, String>)
    ensures
        match r {
            Ok(bits) => finite_text(text@) == Ok::<u64, Seq<char>>(bits),
            Err(error) => finite_text(text@) == Err::<u64, Seq<char>>(error@),
        },
        r matches Ok(bits) ==> bits % SIGN < INFINITE,
        text@.len() == 0 ==> r is Err,
        r matches Err(error) ==> error@.len() > 0,
{
    match text.parse::<strict_num_extended::FinF64>() {
        Ok(number) => Ok(number.as_f64().to_bits()),
        Err(error) => Err(format!("{error:?}")),
    }
}

/// A result with its error text as a sequence of characters.
pub open spec fn text_result<T>(r: Result<T, String>) -> Result<T, Seq<char>> {
    match r {
        Ok(value) => Ok(value),
        Err(error) => Err(error@),
    }
}

/// A number that can be read from text.
pub trait FromText: Sized {
    /// What the text stands for, or why it stands for nothing.
    spec fn of_text(text: Seq<char>) -> Result<Self, Seq<char>>;

    /// Reads the text.
    fn from_text(text: &str) -> (r: Result<Self, String>)
        ensures
            text_result(r) == Self::of_text(text@),
            text@.len() == 0 ==> r is Err,
            r matches Err(error) ==> error@.len() > 0,
    ;
}

impl FromText for PositiveF64 {
    open spec fn of_text(text: Seq<char>) -> Result<Self, Seq<char>> {
        match positive_text(text) {
            Ok(bits) => Ok(PositiveF64::of(bits)),
            Err(error) => Err(error),
        }
    }

    fn from_text(text: &str) -> (r: Result<Self, String>) {
        match parse_positive(text) {
            Ok(bits) => Ok(PositiveF64::from_bits(bits).unwrap()),
            Err(error) => Err(error),
        }
    }
}

/// The number that a bit pattern without a negative value stands for.
pub open spec fn non_negative_of(bits: u64) -> NonNegativeF64 {
    NonNegativeF64::of(
        if bits == SIGN {
            0
        } else {
            bits
        },
    )
}

impl FromText for NonNegativeF64 {
    open spec fn of_text(text: Seq<char>) -> Result<Self, Seq<char>> {
        match non_negative_text(text) {
            Ok(bits) => Ok(non_negative_of(bits)),
            Err(error) => Err(error),
        }
    }

    fn from_text(text: &str) -> (r: Result<Self, String>) {
        match parse_non_negative(text) {
            Ok(bits) => Ok(NonNegativeF64::from_bits(bits).unwrap()),
            Err(error) => Err(error),
        }
    }
}

impl FromText for FinF64 {
    open spec fn of_text(text: Seq<char>) -> Result<Self, Seq<char>> {
        match finite_text(text) {
            Ok(bits) => Ok(FinF64::of(with_sign(bits >= SIGN, bits % SIGN))),
            Err(error) => Err(error),
        }
    }

    fn from_text(text: &str) -> (r: Result<Self, String>) {
        match parse_finite(text) {
            Ok(bits) => Ok(FinF64::from_bits(bits).unwrap()),
            Err(error) => Err(error),
        }
    }
}

/// A value as the chart writes it, with what the text stands for.
#[derive(Debug)]
pub struct StringValue<T: FromText> {
    raw: String,
    value: Result<T, String>,
}

impl<T: FromText> StringValue<T> {
    #[verifier::type_invariant]
    spec fn inv(self) -> bool {
        &&& text_result(self.value) == T::of_text(self.raw@)
        &&& self.raw@.len() == 0 ==> self.value is Err
        &&& self.value matches Err(error) ==> error@.len() > 0
    }

    /// The text.
    pub closed spec fn spec_raw(self) -> Seq<char> {
        self.raw@
    }

    /// Reads a text. An empty one stands for nothing.
    pub fn new(raw: &str) -> (r: Self)
        ensures
            r.spec_raw() == raw@,
            raw@.len() == 0 ==> T::of_text(raw@) is Err,
    {
        let value = T::from_text(raw);
        StringValue { raw: raw.to_owned(), value }
    }

    /// The text.
    pub fn raw(&self) -> (r: &str)
        ensures
            r@ == self.spec_raw(),
    {
        self.raw.as_str()
    }

    /// What the text stands for, or why it stands for nothing.
    pub fn value(&self) -> (r: &Result<T, String>)
        ensures
            text_result(*r) == T::of_text(self.spec_raw()),
            self.spec_raw().len() == 0 ==> *r is Err,
            *r matches Err(error) ==> error@.len() > 0,
    {
        proof {
            use_type_invariant(self);
        }
        &self.value
    }
}

/// A text is read as the number that it stands for: neither the number nor the error is
/// changed on the way, but for negative zero, which counts as zero.
pub proof fn lemma_read_as_written(text: Seq<char>)
    ensures
        match PositiveF64::of_text(text) {
            Ok(x) => positive_text(text) == Ok::<u64, Seq<char>>(x@),
            Err(error) => positive_text(text) == Err::<u64, Seq<char>>(error),
        },
        match NonNegativeF64::of_text(text) {
            Ok(x) => positive_or_zero(non_negative_text(text), x@),
            Err(error) => non_negative_text(text) == Err::<u64, Seq<char>>(error),
        },
        match FinF64::of_text(text) {
            Ok(x) => {
                &&& finite_text(text) is Ok
                &&& x@.1 == finite_text(text)->Ok_0 % SIGN
                &&& x@.0 <==> finite_text(text)->Ok_0 > SIGN
            },
            Err(error) => finite_text(text) == Err::<u64, Seq<char>>(error),
        },
{
    broadcast use group_patterns;

}

/// Whether a text was read as a number, or as negative zero for zero.
pub open spec fn positive_or_zero(read: Result<u64, Seq<char>>, bits: u64) -> bool {
    read == Ok::<u64, Seq<char>>(bits) || (bits == 0 && read == Ok::<u64, Seq<char>>(SIGN))
}

} // verus!
