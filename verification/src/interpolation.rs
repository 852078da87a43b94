//! Values between two others.
use core::ops::{Add, Mul, Sub};
use vstd::std_specs::ops::{AddSpec, MulSpec, SubSpec};
use vstd::prelude::*;

verus! {

/// Whether the operators of a type do what their specifications say.
pub open spec fn has_specified_operators<
    T: Add<Output = T> + Sub<Output = T> + Mul<Output = T> + Copy,
>() -> bool {
    &&& <T as AddSpec>::obeys_add_spec()
    &&& <T as SubSpec>::obeys_sub_spec()
    &&& <T as MulSpec>::obeys_mul_spec()
}

/// The value that lies between `a` and `b` by the given part of the way.
pub open spec fn between<T: Add<Output = T> + Sub<Output = T> + Mul<Output = T> + Copy>(
    a: T,
    b: T,
    bias: T,
) -> T {
    a.add_spec(b.sub_spec(a).mul_spec(bias))
}

/// Computes the value that lies between `a` and `b` by the given part of the way.
pub fn lerp<T: Add<Output = T> + Sub<Output = T> + Mul<Output = T> + Copy>(a: T, b: T, bias: T) -> (
    value: T)
    requires
        has_specified_operators::<T>(),
        b.sub_req(a),
        b.sub_spec(a).mul_req(bias),
        a.add_req(b.sub_spec(a).mul_spec(bias)),
    ensures
        value == between(a, b, bias),
{
    a + (b - a) * bias
}

/// Between two whole numbers, none of the way is the first and all of the way is the second.
pub proof fn interpolation_reaches_both_ends(a: i64, b: i64)
    requires
        i64::MIN <= b - a <= i64::MAX,
    ensures
        between(a, b, 0i64) == a,
        between(a, b, 1i64) == b,
{
}

} // verus!
