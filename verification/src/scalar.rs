//! The numbers a network computes with, and the mathematical reading of
//! their operations that contracts are stated over.

use vstd::prelude::*;

verus! {

/// The arithmetic a matrix element has to offer.
///
/// No method has a precondition, so none may panic, whatever its arguments.
/// None has a postcondition either: what the operations compute is up to
/// the implementation, and contracts speak of it through [`Arith`].
pub trait Scalar: Copy {
    /// The number that stands for a count of `n` things.
    fn from_count(n: usize) -> Self;

    /// `self + rhs`
    fn plus(self, rhs: Self) -> Self;

    /// `self - rhs`
    fn minus(self, rhs: Self) -> Self;

    /// `self * rhs`
    fn times(self, rhs: Self) -> Self;

    /// `self / rhs`
    fn over(self, rhs: Self) -> Self;

    /// `-self`
    fn neg(self) -> Self;

    /// `e` to the power of `self`
    fn exp(self) -> Self;
}

/// A source of random numbers.
pub trait Sampler<S> {
    /// The next number of the source, meant to lie in `[low, high)`.
    fn sample(&mut self, low: S, high: S) -> S;
}

/// `i` is a place in a row of things, the first being place 0.
pub open spec fn place(i: int) -> bool {
    0 <= i
}

/// A reading of the operations of `S` as mathematical functions.
///
/// What a function of this library computes is stated for every reading
/// that [agrees](Arith::agrees) with the operations: if the operations of
/// `S` are functions of their arguments, the result is the one that the
/// contract gives with those functions in the place of `count`, `plus` and
/// the others. Of a number type whose operations may give different
/// results for the same arguments, no reading agrees, and the contracts
/// then speak only of shapes and of what is left untouched.
#[verifier::reject_recursive_types(S)]
pub struct Arith<S> {
    pub count: spec_fn(usize) -> S,
    pub plus: spec_fn(S, S) -> S,
    pub minus: spec_fn(S, S) -> S,
    pub times: spec_fn(S, S) -> S,
    pub over: spec_fn(S, S) -> S,
    pub neg: spec_fn(S) -> S,
    pub exp: spec_fn(S) -> S,
}

impl<S: Scalar> Arith<S> {
    /// Every result that an operation of `S` can return is the one that
    /// these functions give.
    pub open spec fn agrees(self) -> bool {
        &&& forall|n: usize, r: S| (#[trigger] call_ensures(S::from_count, (n,), r)) ==> r == (self.count)(n)
        &&& forall|a: S, b: S, r: S| (#[trigger] call_ensures(S::plus, (a, b), r)) ==> r == (self.plus)(a, b)
        &&& forall|a: S, b: S, r: S| (#[trigger] call_ensures(S::minus, (a, b), r)) ==> r == (self.minus)(a, b)
        &&& forall|a: S, b: S, r: S| (#[trigger] call_ensures(S::times, (a, b), r)) ==> r == (self.times)(a, b)
        &&& forall|a: S, b: S, r: S| (#[trigger] call_ensures(S::over, (a, b), r)) ==> r == (self.over)(a, b)
        &&& forall|a: S, r: S| (#[trigger] call_ensures(S::neg, (a,), r)) ==> r == (self.neg)(a)
        &&& forall|a: S, r: S| (#[trigger] call_ensures(S::exp, (a,), r)) ==> r == (self.exp)(a)
    }

    pub open spec fn zero(self) -> S {
        (self.count)(0)
    }

    pub open spec fn one(self) -> S {
        (self.count)(1)
    }

    pub open spec fn two(self) -> S {
        (self.count)(2)
    }

    /// The logistic function, `1 / (1 + e^(-x))`.
    pub open spec fn sigmoid(self, x: S) -> S {
        (self.over)(self.one(), (self.plus)(self.one(), (self.exp)((self.neg)(x))))
    }
}

/// The logistic function, `1 / (1 + e^(-x))`.
pub fn sigmoid<S: Scalar>(x: S) -> (r: S)
    ensures
        forall|m: Arith<S>| (#[trigger] m.agrees()) ==> r == m.sigmoid(x),
{
    S::from_count(1).over(S::from_count(1).plus(x.neg().exp()))
}

} // verus!
