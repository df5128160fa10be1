//! What the interpreter asks of its host: floating-point arithmetic and
//! line input and output.
//!
//! A float is represented by the bit pattern of an IEEE-754 binary64 number.
//! The interpreter moves such patterns around and decides when an operation
//! on them is due; computing its result is the host's business, as are
//! reading and printing lines. No contract is assumed of a host: every proof
//! in this crate holds whatever a host returns.
use vstd::prelude::*;

verus! {

/// The services the interpreter needs from outside.
pub trait Host {
    /// `a + b`.
    fn add(&self, a: u64, b: u64) -> u64;

    /// `a - b`.
    fn sub(&self, a: u64, b: u64) -> u64;

    /// `a * b`.
    fn mul(&self, a: u64, b: u64) -> u64;

    /// `a / b`, where `b` is not a zero.
    fn div(&self, a: u64, b: u64) -> u64;

    /// The quotient of two integers, `b != 0`, as a float.
    fn div_ints(&self, a: i32, b: i32) -> u64;

    /// `a < b`.
    fn less(&self, a: u64, b: u64) -> bool;

    /// The value of a float literal, in the syntax of `f64::from_str`; the
    /// interpreter has checked that syntax before it asks.
    fn from_literal(&self, text: &str) -> u64;

    /// Renders a float as text.
    fn render_float(&self, a: u64) -> String;

    /// Reads one line of input, without its line break; `None` when no
    /// line can be read.
    fn read_line(&mut self) -> Option<String>;

    /// Writes one line of output.
    fn print_line(&mut self, line: &str);
}

/// The sign bit of a binary64 pattern.
pub const SIGN_BIT: u64 = 0x8000_0000_0000_0000;

/// Whether a binary64 pattern stands for positive or negative zero.
pub open spec fn is_zero_spec(a: u64) -> bool {
    a == 0 || a == SIGN_BIT
}

/// Whether a binary64 pattern stands for zero.
pub fn is_zero(a: u64) -> (r: bool)
    ensures
        r == is_zero_spec(a),
{
    a == 0 || a == SIGN_BIT
}

/// The negation of a float: the same pattern with its sign bit flipped.
pub open spec fn negate_spec(a: u64) -> u64 {
    if a >= SIGN_BIT {
        (a - SIGN_BIT) as u64
    } else {
        (a + SIGN_BIT) as u64
    }
}

/// Negates a float by flipping its sign bit.
pub fn negate(a: u64) -> (r: u64)
    ensures
        r == negate_spec(a),
        negate_spec(r) == a,
{
    if a >= SIGN_BIT {
        a - SIGN_BIT
    } else {
        a + SIGN_BIT
    }
}

} // verus!
