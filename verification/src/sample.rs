//! The numbers that a pixel is made of.

use core::ops::{Add, Div, Mul, Neg, Sub};
use vstd::prelude::*;
use vstd::std_specs::cmp::{PartialOrdIs, PartialOrdSpec};
use vstd::std_specs::convert::FromSpec;
use vstd::std_specs::ops::{AddSpec, DivSpec, MulSpec, NegSpec, SubSpec};

verus! {

/// A number that image processing can compute with: small integers convert into it, and it has
/// the four operations, negation and an order. `f32` and `f64` are such types.
pub trait Sample: Copy + From<i8> + Add<Output = Self> + Sub<Output = Self> + Mul<
    Output = Self,
> + Div<Output = Self> + Neg<Output = Self> + PartialOrd {

}

impl<T> Sample for T where
    T: Copy + From<i8> + Add<Output = T> + Sub<Output = T> + Mul<Output = T> + Div<
        Output = T,
    > + Neg<Output = T> + PartialOrd,
 {

}

/// The operands of a comparison determine its outcome.
pub open spec fn ordered<T: PartialOrd>() -> bool {
    T::obeys_partial_cmp_spec()
}

/// The operations of `T` are functions: each is defined on every pair of operands, division at
/// least where it is by two, three or four, and the operands determine the result. IEEE floating
/// point is of this kind up to the payload of a NaN, which no comparison depends on.
pub open spec fn arithmetic<T: Sample>() -> bool {
    &&& <T as FromSpec<i8>>::obeys_from_spec()
    &&& T::obeys_add_spec()
    &&& T::obeys_sub_spec()
    &&& T::obeys_mul_spec()
    &&& T::obeys_div_spec()
    &&& T::obeys_neg_spec()
    &&& ordered::<T>()
    &&& forall|a: T, b: T| #[trigger] a.add_req(b)
    &&& forall|a: T, b: T| #[trigger] a.sub_req(b)
    &&& forall|a: T, b: T| #[trigger] a.mul_req(b)
    &&& forall|a: T, n: int| 2 <= n <= 4 ==> #[trigger] a.div_req(num::<T>(n))
    &&& forall|a: T| #[trigger] a.neg_req()
}

/// The sample that stands for the integer `n`.
pub open spec fn num<T: Sample>(n: int) -> T {
    <T as FromSpec<i8>>::from_spec(n as i8)
}

/// The quotient of two integers, as a sample.
pub open spec fn ratio<T: Sample>(n: int, d: int) -> T {
    num::<T>(n).div_spec(num::<T>(d))
}

/// The absolute value of `a`.
pub open spec fn magnitude<T: Sample>(a: T) -> T {
    if a.is_lt(&num::<T>(0)) {
        a.neg_spec()
    } else {
        a
    }
}

/// `w[0] * v[0] + ... + w[n - 1] * v[n - 1]`, added up from zero in that order.
pub open spec fn weighted_sum<T: Sample>(w: Seq<T>, v: Seq<T>, n: nat) -> T
    decreases n,
{
    if n == 0 {
        num::<T>(0)
    } else {
        weighted_sum(w, v, (n - 1) as nat).add_spec(w[n - 1].mul_spec(v[n - 1]))
    }
}

/// The integer `n` as a sample.
pub fn sample<T: Sample>(n: i8) -> (r: T)
    ensures
        <T as FromSpec<i8>>::obeys_from_spec() ==> r == num::<T>(n as int),
{
    <T as From<i8>>::from(n)
}

/// The absolute value of `a`.
pub fn absolute<T: Sample>(a: T) -> (r: T)
    requires
        arithmetic::<T>(),
    ensures
        r == magnitude(a),
{
    if a < sample::<T>(0) {
        a.neg()
    } else {
        a
    }
}

} // verus!
