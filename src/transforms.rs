//! Element transforms for integer inputs.
use vstd::prelude::*;

verus! {

/// The character of a decimal digit `d < 10`.
pub open spec fn digit_char(d: nat) -> char {
    seq!['0', '1', '2', '3', '4', '5', '6', '7', '8', '9'][d as int]
}

/// The base-ten digits of `n`, most significant first, without leading zeros.
pub open spec fn digits(n: nat) -> Seq<char>
    decreases n,
{
    if n < 10 {
        seq![digit_char(n)]
    } else {
        digits(n / 10).push(digit_char(n % 10))
    }
}

/// `n` written in base ten, with a leading `-` when negative.
pub open spec fn decimal(n: int) -> Seq<char> {
    if n < 0 {
        seq!['-'] + digits((-n) as nat)
    } else {
        digits(n as nat)
    }
}

/// Relies on `ToString::to_string` through `i32`'s `Display`: base ten, a
/// leading `-` for a negative value, no leading zeros, no padding.
#[verifier::external_body]
fn decimal_string(n: i32) -> (r: String)
    ensures
        r@ == decimal(n as int),
{
    n.to_string()
}

/// The decimal text of `input`.
pub fn to_string(input: &i32) -> (r: String)
    ensures
        r@ == decimal(*input as int),
{
    decimal_string(*input)
}

/// Twice `input`; the doubled value must fit in an `i32`.
pub fn add_itself(input: &i32) -> (r: i32)
    requires
        i32::MIN <= 2 * *input <= i32::MAX,
    ensures
        r == 2 * *input,
{
    *input + *input
}

} // verus!
