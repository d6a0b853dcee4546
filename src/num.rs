use vstd::prelude::*;

verus! {

/// The scalar a matrix or a network computes with.
///
/// Each operation is described by a spec function of the implementing type.
/// The contracts of this crate are stated over those spec functions, so they
/// hold for every implementation whose operations are pure functions of their
/// arguments (as the ring operations of integers and IEEE floats are).
pub trait Num: Copy + Sized {
    /// The additive identity.
    spec fn zero_spec() -> Self;

    /// The multiplicative identity.
    spec fn one_spec() -> Self;

    /// Sum of two scalars.
    spec fn plus_spec(a: Self, b: Self) -> Self;

    /// Difference of two scalars.
    spec fn minus_spec(a: Self, b: Self) -> Self;

    /// Product of two scalars.
    spec fn times_spec(a: Self, b: Self) -> Self;

    /// Whether `a` compares strictly greater than `b`.
    spec fn greater_spec(a: Self, b: Self) -> bool;

    fn zero() -> (r: Self)
        ensures
            r == Self::zero_spec(),
    ;

    fn one() -> (r: Self)
        ensures
            r == Self::one_spec(),
    ;

    fn plus(self, b: Self) -> (r: Self)
        ensures
            r == Self::plus_spec(self, b),
    ;

    fn minus(self, b: Self) -> (r: Self)
        ensures
            r == Self::minus_spec(self, b),
    ;

    fn times(self, b: Self) -> (r: Self)
        ensures
            r == Self::times_spec(self, b),
    ;

    fn greater(self, b: Self) -> (r: bool)
        ensures
            r == Self::greater_spec(self, b),
    ;
}

/// Marker for the integer scalars.
pub trait Int {}

/// A scalar with division and the transcendental functions the network's
/// activations are built from.
///
/// As with [`Num`], each operation is named by a spec function of the
/// implementing type; the engine's contracts are exact over those names.
pub trait Real: Num {
    /// Quotient of two scalars.
    spec fn over_spec(a: Self, b: Self) -> Self;

    /// The scalar nearest to a count.
    spec fn from_usize_spec(n: usize) -> Self;

    /// The logistic function `1 / (1 + e^-x)`.
    spec fn sigmoid_spec(x: Self) -> Self;

    /// The logistic function's derivative, `1 / (2 + e^x + e^-x)`.
    spec fn sigmoid_deriv_spec(x: Self) -> Self;

    /// The hyperbolic tangent.
    spec fn tanh_spec(x: Self) -> Self;

    fn over(self, b: Self) -> (r: Self)
        ensures
            r == Self::over_spec(self, b),
    ;

    fn from_usize(n: usize) -> (r: Self)
        ensures
            r == Self::from_usize_spec(n),
    ;

    fn sigmoid(self) -> (r: Self)
        ensures
            r == Self::sigmoid_spec(self),
    ;

    fn sigmoid_deriv(self) -> (r: Self)
        ensures
            r == Self::sigmoid_deriv_spec(self),
    ;

    fn tanh(self) -> (r: Self)
        ensures
            r == Self::tanh_spec(self),
    ;
}

impl Int for i32 {}

/// 32-bit integers, with two's-complement wrapping arithmetic.
impl Num for i32 {
    open spec fn zero_spec() -> i32 {
        0
    }

    open spec fn one_spec() -> i32 {
        1
    }

    open spec fn plus_spec(a: i32, b: i32) -> i32 {
        a.wrapping_add(b)
    }

    open spec fn minus_spec(a: i32, b: i32) -> i32 {
        a.wrapping_sub(b)
    }

    open spec fn times_spec(a: i32, b: i32) -> i32 {
        a.wrapping_mul(b)
    }

    open spec fn greater_spec(a: i32, b: i32) -> bool {
        a > b
    }

    fn zero() -> (r: i32) {
        0
    }

    fn one() -> (r: i32) {
        1
    }

    fn plus(self, b: i32) -> (r: i32) {
        self.wrapping_add(b)
    }

    fn minus(self, b: i32) -> (r: i32) {
        self.wrapping_sub(b)
    }

    fn times(self, b: i32) -> (r: i32) {
        self.wrapping_mul(b)
    }

    fn greater(self, b: i32) -> (r: bool) {
        self > b
    }
}

impl Int for i64 {}

/// 64-bit integers, with two's-complement wrapping arithmetic.
impl Num for i64 {
    open spec fn zero_spec() -> i64 {
        0
    }

    open spec fn one_spec() -> i64 {
        1
    }

    open spec fn plus_spec(a: i64, b: i64) -> i64 {
        a.wrapping_add(b)
    }

    open spec fn minus_spec(a: i64, b: i64) -> i64 {
        a.wrapping_sub(b)
    }

    open spec fn times_spec(a: i64, b: i64) -> i64 {
        a.wrapping_mul(b)
    }

    open spec fn greater_spec(a: i64, b: i64) -> bool {
        a > b
    }

    fn zero() -> (r: i64) {
        0
    }

    fn one() -> (r: i64) {
        1
    }

    fn plus(self, b: i64) -> (r: i64) {
        self.wrapping_add(b)
    }

    fn minus(self, b: i64) -> (r: i64) {
        self.wrapping_sub(b)
    }

    fn times(self, b: i64) -> (r: i64) {
        self.wrapping_mul(b)
    }

    fn greater(self, b: i64) -> (r: bool) {
        self > b
    }
}

} // verus!
