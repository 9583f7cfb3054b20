//! The ways a factorization can fail.

use vstd::prelude::*;

verus! {

/// Why a factorization was abandoned. Neither failure leaves a usable factor.
#[derive(Clone, Copy, Debug, PartialEq, Eq, Structural)]
pub enum LdlError {
    /// The stored matrix differs from its transpose.
    AsymmetricInput,
    /// A pivot came out as zero: under this ordering the matrix has no
    /// factorization without pivoting.
    SingularPivot,
}

} // verus!
