use vstd::prelude::*;

verus! {

/// The number type in which prices, cash, equity and fractions of equity are
/// kept. The library never looks inside such a number: every computation on
/// one goes through these methods, and the library proves its bookkeeping
/// (ids, queues, trade sizes in whole units, bar indices) for every value that
/// they may return. Executables instantiate it with a binary floating-point
/// type; the methods then behave as the same-named operations of that type.
pub trait Scalar: Copy + Sized {
    fn zero() -> Self;

    fn one() -> Self;

    /// A value that is not a number (`NaN`).
    fn nan() -> Self;

    fn infinity() -> Self;

    fn neg_infinity() -> Self;

    /// The smallest finite value (`MIN`).
    fn lowest() -> Self;

    /// The largest finite value (`MAX`).
    fn highest() -> Self;

    /// The gap between one and the next larger value (`EPSILON`).
    fn epsilon() -> Self;

    /// The nearest value to a whole number (`v as f64`).
    fn from_i64(v: i64) -> Self;

    fn from_u64(v: u64) -> Self;

    fn from_usize(v: usize) -> Self;

    fn from_u128(v: u128) -> Self;

    /// Toward zero to a whole number, saturating at the bounds of `i64`,
    /// and `0` for a value that is not a number (`x as i64`).
    fn to_i64(self) -> i64;

    fn plus(self, rhs: Self) -> Self;

    fn minus(self, rhs: Self) -> Self;

    fn times(self, rhs: Self) -> Self;

    fn divided_by(self, rhs: Self) -> Self;

    fn negated(self) -> Self;

    fn abs(self) -> Self;

    fn floor(self) -> Self;

    fn round(self) -> Self;

    fn sqrt(self) -> Self;

    fn ln(self) -> Self;

    fn exp(self) -> Self;

    fn powf(self, e: Self) -> Self;

    fn powi(self, e: i32) -> Self;

    /// The larger of two values, ignoring a `NaN` operand.
    fn maximum(self, rhs: Self) -> Self;

    /// The smaller of two values, ignoring a `NaN` operand.
    fn minimum(self, rhs: Self) -> Self;

    fn lt(self, rhs: Self) -> bool;

    fn le(self, rhs: Self) -> bool;

    fn gt(self, rhs: Self) -> bool;

    fn ge(self, rhs: Self) -> bool;

    fn equals(self, rhs: Self) -> bool;

    fn is_nan(self) -> bool;

    fn is_finite(self) -> bool;

    /// The value as text, as `{}` prints it.
    fn to_text(self) -> String;

    /// The value as text, as `{:?}` prints it.
    fn to_debug_text(self) -> String;
}

} // verus!
