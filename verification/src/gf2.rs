//! The field with two elements: the smallest exact arithmetic.
//!
//! Addition and subtraction are "exclusive or", multiplication is "and", and
//! the only division is by one. The type shows that the laws of exact
//! arithmetic can be met, and lets the factorization be run where every
//! result can be checked by hand.

use vstd::prelude::*;
use vstd::std_specs::cmp::PartialEqSpecImpl;
use vstd::std_specs::ops::{AddSpecImpl, DivSpecImpl, MulSpecImpl, SubSpecImpl};
use std::ops::{Add, Div, Mul, Sub};
use crate::exact::{distributes, exact};
use crate::scalar::field_like;

verus! {

/// An element of the field with two elements: zero or one.
#[derive(Clone, Copy, Debug)]
pub struct Gf2 {
    pub one: bool,
}

impl Gf2 {
    /// The additive identity.
    pub open spec fn zero_spec() -> Gf2 {
        Gf2 { one: false }
    }

    /// The additive identity.
    pub fn zero() -> (z: Gf2)
        ensures
            z == Gf2::zero_spec(),
    {
        Gf2 { one: false }
    }

    /// The multiplicative identity.
    pub fn unit() -> (u: Gf2)
        ensures
            u == (Gf2 { one: true }),
    {
        Gf2 { one: true }
    }
}

impl PartialEq for Gf2 {
    fn eq(&self, other: &Gf2) -> (r: bool) {
        self.one == other.one
    }
}

impl PartialEqSpecImpl for Gf2 {
    open spec fn obeys_eq_spec() -> bool {
        true
    }

    open spec fn eq_spec(&self, other: &Gf2) -> bool {
        self.one == other.one
    }
}

impl Add for Gf2 {
    type Output = Gf2;

    fn add(self, rhs: Gf2) -> (r: Gf2) {
        Gf2 { one: self.one != rhs.one }
    }
}

impl AddSpecImpl for Gf2 {
    open spec fn obeys_add_spec() -> bool {
        true
    }

    open spec fn add_req(self, rhs: Gf2) -> bool {
        true
    }

    open spec fn add_spec(self, rhs: Gf2) -> Gf2 {
        Gf2 { one: self.one != rhs.one }
    }
}

impl Sub for Gf2 {
    type Output = Gf2;

    fn sub(self, rhs: Gf2) -> (r: Gf2) {
        Gf2 { one: self.one != rhs.one }
    }
}

impl SubSpecImpl for Gf2 {
    open spec fn obeys_sub_spec() -> bool {
        true
    }

    open spec fn sub_req(self, rhs: Gf2) -> bool {
        true
    }

    open spec fn sub_spec(self, rhs: Gf2) -> Gf2 {
        Gf2 { one: self.one != rhs.one }
    }
}

impl Mul for Gf2 {
    type Output = Gf2;

    fn mul(self, rhs: Gf2) -> (r: Gf2) {
        Gf2 { one: self.one && rhs.one }
    }
}

impl MulSpecImpl for Gf2 {
    open spec fn obeys_mul_spec() -> bool {
        true
    }

    open spec fn mul_req(self, rhs: Gf2) -> bool {
        true
    }

    open spec fn mul_spec(self, rhs: Gf2) -> Gf2 {
        Gf2 { one: self.one && rhs.one }
    }
}

impl Div for Gf2 {
    type Output = Gf2;

    fn div(self, rhs: Gf2) -> (r: Gf2) {
        self
    }
}

impl DivSpecImpl for Gf2 {
    open spec fn obeys_div_spec() -> bool {
        true
    }

    open spec fn div_req(self, rhs: Gf2) -> bool {
        rhs.one
    }

    open spec fn div_spec(self, rhs: Gf2) -> Gf2 {
        self
    }
}

/// The field with two elements has exact arithmetic.
pub proof fn lemma_gf2_is_exact()
    ensures
        field_like::<Gf2>(Gf2::zero_spec()),
        exact::<Gf2>(Gf2::zero_spec()),
        distributes::<Gf2>(),
{
    reveal(exact);
    reveal(distributes);
}

} // verus!
