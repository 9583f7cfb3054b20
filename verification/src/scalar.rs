//! What the factorization asks of the type of a matrix element.

use vstd::prelude::*;
use vstd::std_specs::ops::{AddSpec, SubSpec, MulSpec, DivSpec};
use vstd::std_specs::cmp::PartialEqSpec;
use std::ops::{Add, Sub, Mul, Div};

verus! {

/// An element type with the four operations and a test for equality. Every
/// type that has them is a `Scalar`.
pub trait Scalar: Copy + PartialEq + Add<Output = Self> + Sub<Output = Self> + Mul<
    Output = Self,
> + Div<Output = Self> {

}

impl<T> Scalar for T where
    T: Copy + PartialEq + Add<Output = T> + Sub<Output = T> + Mul<Output = T> + Div<Output = T>,
 {

}

/// Subtraction and multiplication in `N` are functions of their operands,
/// defined everywhere.
pub open spec fn ring_like<N: Scalar>() -> bool {
    &&& N::obeys_sub_spec()
    &&& N::obeys_mul_spec()
    &&& forall|a: N, b: N| #[trigger] a.sub_req(b)
    &&& forall|a: N, b: N| #[trigger] a.mul_req(b)
}

/// The operators of `N` are functions of their operands, defined everywhere
/// but for division by a value equal to `zero`.
pub open spec fn field_like<N: Scalar>(zero: N) -> bool {
    &&& ring_like::<N>()
    &&& N::obeys_add_spec()
    &&& N::obeys_div_spec()
    &&& N::obeys_eq_spec()
    &&& forall|a: N, b: N| #[trigger] a.add_req(b)
    &&& forall|a: N, b: N| !b.eq_spec(&zero) ==> #[trigger] a.div_req(b)
}

} // verus!
