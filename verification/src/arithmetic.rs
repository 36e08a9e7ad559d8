//! The arithmetic of the scalars, which the graph takes as functions.
//!
//! The scalars are opaque to this library. What it states of values and
//! gradients holds for every arithmetic that the given functions compute.

use vstd::prelude::*;

verus! {

/// An arithmetic on scalars of type `T`, as mathematical functions.
#[verifier::reject_recursive_types(T)]
pub struct Arithmetic<T> {
    /// The seed of a backward pass.
    pub one: T,
    /// The sum of two scalars.
    pub add: spec_fn(T, T) -> T,
    /// The difference of two scalars.
    pub sub: spec_fn(T, T) -> T,
    /// The product of two scalars.
    pub mul: spec_fn(T, T) -> T,
    /// The hyperbolic tangent of a scalar.
    pub tanh: spec_fn(T) -> T,
}

/// The function accepts every pair of scalars.
pub open spec fn total2<T, F: Fn(T, T) -> T>(f: F) -> bool {
    forall|x: T, y: T| #[trigger] call_requires(f, (x, y))
}

/// Whatever the executable function returns is what the mathematical one
/// gives.
pub open spec fn computes1<T, F: Fn(T) -> T>(f: F, g: spec_fn(T) -> T) -> bool {
    forall|x: T, r: T| #[trigger] call_ensures(f, (x,), r) ==> r == g(x)
}

/// Whatever the executable function returns is what the mathematical one
/// gives.
pub open spec fn computes2<T, F: Fn(T, T) -> T>(f: F, g: spec_fn(T, T) -> T) -> bool {
    forall|x: T, y: T, r: T| #[trigger] call_ensures(f, (x, y), r) ==> r == g(x, y)
}

/// The scalar and the functions that a backward pass is given are those of
/// the arithmetic.
pub open spec fn models<T, P: Fn(T, T) -> T, S: Fn(T, T) -> T, M: Fn(T, T) -> T>(
    ar: Arithmetic<T>,
    one: T,
    plus: P,
    minus: S,
    times: M,
) -> bool {
    &&& ar.one == one
    &&& computes2(plus, ar.add)
    &&& computes2(minus, ar.sub)
    &&& computes2(times, ar.mul)
}

} // verus!
