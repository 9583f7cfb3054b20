//! Exact arithmetic: the laws under which a factor reproduces its matrix.
//!
//! Arithmetic that rounds does not obey these laws. What is proved from them
//! holds for element types such as the rationals or a finite field.

use vstd::prelude::*;
use vstd::std_specs::ops::{AddSpec, SubSpec, MulSpec, DivSpec};
use vstd::std_specs::cmp::PartialEqSpec;
use crate::scalar::{field_like, Scalar};

verus! {

/// Whether the operators of `N` obey the laws of a field as far as the
/// factorization uses them: addition is commutative and associative with the
/// identity `zero`, subtraction and addition undo each other, `zero`
/// annihilates under multiplication, division by a value other than `zero`
/// and multiplication by it undo each other, and `==` tells whether two
/// values are the same.
#[verifier::opaque]
pub open spec fn exact<N: Scalar>(zero: N) -> bool {
    &&& field_like::<N>(zero)
    &&& forall|a: N, b: N| #[trigger] a.eq_spec(&b) <==> a == b
    &&& forall|a: N, b: N| #[trigger] a.add_spec(b) == b.add_spec(a)
    &&& forall|a: N, b: N, c: N| #[trigger] a.add_spec(b).add_spec(c) == a.add_spec(b.add_spec(c))
    &&& forall|a: N| #[trigger] a.add_spec(zero) == a
    &&& forall|a: N, b: N| (#[trigger] a.sub_spec(b)).add_spec(b) == a
    &&& forall|a: N, b: N| (#[trigger] a.add_spec(b)).sub_spec(b) == a
    &&& forall|a: N| #[trigger] a.mul_spec(zero) == zero
    &&& forall|a: N| #[trigger] zero.mul_spec(a) == zero
    &&& forall|a: N, b: N| b != zero ==> b.mul_spec(#[trigger] a.div_spec(b)) == a
    &&& forall|a: N, b: N| b != zero ==> (#[trigger] b.mul_spec(a)).div_spec(b) == a
}

/// Exact arithmetic is field-like.
pub proof fn lemma_exact_field_like<N: Scalar>(zero: N)
    requires
        exact(zero),
    ensures
        field_like::<N>(zero),
{
    reveal(exact);
}

/// `==` in exact arithmetic tells whether two values are the same.
pub proof fn lemma_eq<N: Scalar>(zero: N, a: N, b: N)
    requires
        exact(zero),
    ensures
        a.eq_spec(&b) <==> a == b,
{
    reveal(exact);
}

/// `a + b == b + a`.
pub proof fn lemma_add_comm<N: Scalar>(zero: N, a: N, b: N)
    requires
        exact(zero),
    ensures
        a.add_spec(b) == b.add_spec(a),
{
    reveal(exact);
}

/// `(a + b) + c == a + (b + c)`.
pub proof fn lemma_add_assoc<N: Scalar>(zero: N, a: N, b: N, c: N)
    requires
        exact(zero),
    ensures
        a.add_spec(b).add_spec(c) == a.add_spec(b.add_spec(c)),
{
    reveal(exact);
}

/// `a + 0 == a` and `0 + a == a`.
pub proof fn lemma_add_zero<N: Scalar>(zero: N, a: N)
    requires
        exact(zero),
    ensures
        a.add_spec(zero) == a,
        zero.add_spec(a) == a,
{
    reveal(exact);
}

/// `(a - b) + b == a`.
pub proof fn lemma_sub_add<N: Scalar>(zero: N, a: N, b: N)
    requires
        exact(zero),
    ensures
        a.sub_spec(b).add_spec(b) == a,
{
    reveal(exact);
}

/// `a * 0 == 0` and `0 * a == 0`.
pub proof fn lemma_mul_zero<N: Scalar>(zero: N, a: N)
    requires
        exact(zero),
    ensures
        a.mul_spec(zero) == zero,
        zero.mul_spec(a) == zero,
{
    reveal(exact);
}

/// `b * (a / b) == a` unless `b` is `zero`.
pub proof fn lemma_mul_div<N: Scalar>(zero: N, a: N, b: N)
    requires
        exact(zero),
        b != zero,
    ensures
        b.mul_spec(a.div_spec(b)) == a,
{
    reveal(exact);
}

/// A term added on both sides can be dropped: `a + s == b + s` only if
/// `a == b`.
pub proof fn lemma_add_cancel<N: Scalar>(zero: N, a: N, b: N, s: N)
    requires
        exact(zero),
        a.add_spec(s) == b.add_spec(s),
    ensures
        a == b,
{
    reveal(exact);
    assert(a.add_spec(s).sub_spec(s) == a);
    assert(b.add_spec(s).sub_spec(s) == b);
}

/// A factor other than `zero` on both sides can be dropped: `d * a == d * b`
/// only if `a == b`.
pub proof fn lemma_mul_cancel<N: Scalar>(zero: N, d: N, a: N, b: N)
    requires
        exact(zero),
        d != zero,
        d.mul_spec(a) == d.mul_spec(b),
    ensures
        a == b,
{
    reveal(exact);
    assert(d.mul_spec(a).div_spec(d) == a);
    assert(d.mul_spec(b).div_spec(d) == b);
}

/// What is subtracted from one side and added to the other cancels:
/// `(a - d) + (s + d) == a + s`.
pub proof fn lemma_cancel<N: Scalar>(zero: N, a: N, s: N, d: N)
    requires
        exact(zero),
    ensures
        a.sub_spec(d).add_spec(s.add_spec(d)) == a.add_spec(s),
{
    lemma_add_comm(zero, s, d);
    lemma_add_assoc(zero, a.sub_spec(d), d, s);
    lemma_sub_add(zero, a, d);
}

/// Whether multiplication in `N` is commutative and associative and
/// distributes over addition.
#[verifier::opaque]
pub open spec fn distributes<N: Scalar>() -> bool {
    &&& forall|a: N, b: N| #[trigger] a.mul_spec(b) == b.mul_spec(a)
    &&& forall|a: N, b: N, c: N| #[trigger] a.mul_spec(b).mul_spec(c) == a.mul_spec(b.mul_spec(c))
    &&& forall|a: N, b: N, c: N| #[trigger]
        a.mul_spec(b.add_spec(c)) == a.mul_spec(b).add_spec(a.mul_spec(c))
}

/// `a * b == b * a`.
pub proof fn lemma_mul_comm<N: Scalar>(a: N, b: N)
    requires
        distributes::<N>(),
    ensures
        a.mul_spec(b) == b.mul_spec(a),
{
    reveal(distributes);
}

/// `(a * b) * c == a * (b * c)`.
pub proof fn lemma_mul_assoc<N: Scalar>(a: N, b: N, c: N)
    requires
        distributes::<N>(),
    ensures
        a.mul_spec(b).mul_spec(c) == a.mul_spec(b.mul_spec(c)),
{
    reveal(distributes);
}

/// `a * (b + c) == a * b + a * c` and `(b + c) * a == b * a + c * a`.
pub proof fn lemma_distribute<N: Scalar>(a: N, b: N, c: N)
    requires
        distributes::<N>(),
    ensures
        a.mul_spec(b.add_spec(c)) == a.mul_spec(b).add_spec(a.mul_spec(c)),
        b.add_spec(c).mul_spec(a) == b.mul_spec(a).add_spec(c.mul_spec(a)),
{
    reveal(distributes);
}

/// `(a + b) + (c + d) == (a + c) + (b + d)`.
pub proof fn lemma_add_swap<N: Scalar>(zero: N, a: N, b: N, c: N, d: N)
    requires
        exact(zero),
    ensures
        a.add_spec(b).add_spec(c.add_spec(d)) == a.add_spec(c).add_spec(b.add_spec(d)),
{
    lemma_add_assoc(zero, a, b, c.add_spec(d));
    lemma_add_assoc(zero, b, c, d);
    lemma_add_comm(zero, b, c);
    lemma_add_assoc(zero, c, b, d);
    lemma_add_assoc(zero, a, c, b.add_spec(d));
}

} // verus!
