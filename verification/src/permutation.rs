//! Permutations of `0..n`, kept together with their inverse.

use vstd::prelude::*;

verus! {

/// A bijection on the indices of a matrix.
///
/// `Identity` fits every dimension. `Explicit` stores the images and the
/// preimages, so that both directions cost one lookup.
pub enum Permutation {
    Identity,
    Explicit { perm: Vec<usize>, perm_inv: Vec<usize> },
}

/// Whether some index has the image `k`.
pub open spec fn is_image(perm: Seq<usize>, k: int) -> bool {
    exists|i: int| 0 <= i < perm.len() && #[trigger] perm[i] == k
}

/// Whether `perm` maps `0..perm.len()` onto itself, one to one.
pub open spec fn is_bijection(perm: Seq<usize>) -> bool {
    &&& forall|i: int| 0 <= i < perm.len() ==> (#[trigger] perm[i]) < perm.len()
    &&& forall|i: int, j: int|
        0 <= i < perm.len() && 0 <= j < perm.len() && i != j ==> #[trigger] perm[i]
            != #[trigger] perm[j]
    &&& forall|k: int| 0 <= k < perm.len() ==> #[trigger] is_image(perm, k)
}

/// Whether `perm_inv` undoes `perm` and `perm` undoes `perm_inv`.
pub open spec fn mutually_inverse(perm: Seq<usize>, perm_inv: Seq<usize>) -> bool {
    &&& perm.len() == perm_inv.len()
    &&& forall|i: int|
        0 <= i < perm.len() ==> (#[trigger] perm[i]) < perm.len() && perm_inv[perm[i] as int] == i
    &&& forall|k: int|
        0 <= k < perm.len() ==> (#[trigger] perm_inv[k]) < perm.len() && perm[perm_inv[k] as int]
            == k
}

impl Permutation {
    /// Whether this permutation acts on `0..n`.
    pub open spec fn wf_for(&self, n: nat) -> bool {
        match self {
            Permutation::Identity => true,
            Permutation::Explicit { perm, perm_inv } => {
                perm@.len() == n && mutually_inverse(perm@, perm_inv@)
            },
        }
    }

    /// The image of `i`.
    pub open spec fn image(&self, i: int) -> int {
        match self {
            Permutation::Identity => i,
            Permutation::Explicit { perm, perm_inv } => perm@[i] as int,
        }
    }

    /// The index whose image is `k`.
    pub open spec fn preimage(&self, k: int) -> int {
        match self {
            Permutation::Identity => k,
            Permutation::Explicit { perm, perm_inv } => perm_inv@[k] as int,
        }
    }

    /// The permutation that moves nothing.
    pub fn identity() -> (p: Permutation)
        ensures
            p == Permutation::Identity,
            forall|n: nat| p.wf_for(n),
    {
        Permutation::Identity
    }

    /// The permutation that sends each `i` to `perm[i]`, if `perm` is one.
    pub fn new(perm: Vec<usize>) -> (res: Option<Permutation>)
        ensures
            res is Some <==> is_bijection(perm@),
            res matches Some(p) ==> {
                &&& p.wf_for(perm@.len())
                &&& forall|i: int| 0 <= i < perm@.len() ==> p.image(i) == perm@[i]
            },
    {
        let n: usize = perm.len();
        let mut perm_inv: Vec<usize> = Vec::new();
        let mut k: usize = 0;
        while k < n
            invariant
                k <= n,
                perm_inv@.len() == k,
                forall|j: int| 0 <= j < k ==> perm_inv@[j] == n,
            decreases n - k,
        {
            perm_inv.push(n);
            k += 1;
        }
        let mut i: usize = 0;
        while i < n
            invariant
                i <= n,
                n == perm@.len(),
                perm_inv@.len() == n,
                forall|j: int| 0 <= j < i ==> (#[trigger] perm@[j]) < n && perm_inv@[perm@[j] as int] == j,
                forall|k: int|
                    0 <= k < n ==> (#[trigger] perm_inv@[k]) == n || (perm_inv@[k] < i
                        && perm@[perm_inv@[k] as int] == k),
            decreases n - i,
        {
            let p: usize = perm[i];
            if p >= n {
                return None;
            }
            if perm_inv[p] != n {
                proof {
                    let other: int = perm_inv@[p as int] as int;
                    assert(perm@[other] == perm@[i as int] && other != i);
                }
                return None;
            }
            perm_inv[p] = i;
            i += 1;
        }
        let mut k: usize = 0;
        while k < n
            invariant
                k <= n,
                n == perm@.len(),
                perm_inv@.len() == n,
                forall|j: int| 0 <= j < n ==> (#[trigger] perm@[j]) < n && perm_inv@[perm@[j] as int] == j,
                forall|k: int|
                    0 <= k < n ==> (#[trigger] perm_inv@[k]) == n || (perm_inv@[k] < n
                        && perm@[perm_inv@[k] as int] == k),
                forall|j: int| 0 <= j < k ==> (#[trigger] perm_inv@[j]) != n,
            decreases n - k,
        {
            if perm_inv[k] == n {
                proof {
                    assert forall|i: int| 0 <= i < n implies #[trigger] perm@[i] != k by {
                        assert(perm_inv@[perm@[i] as int] == i);
                    }
                    assert(!is_image(perm@, k as int));
                }
                return None;
            }
            k += 1;
        }
        proof {
            assert forall|i: int, j: int|
                0 <= i < n && 0 <= j < n && i != j implies #[trigger] perm@[i]
                != #[trigger] perm@[j] by {
                assert(perm_inv@[perm@[i] as int] == i);
                assert(perm_inv@[perm@[j] as int] == j);
            }
            assert forall|k: int| 0 <= k < n implies #[trigger] is_image(perm@, k) by {
                let i: int = perm_inv@[k] as int;
                assert(perm@[i] == k);
            }
        }
        Some(Permutation::Explicit { perm, perm_inv })
    }

    /// The image of `i`.
    pub fn at(&self, i: usize) -> (r: usize)
        requires
            exists|n: nat| self.wf_for(n) && i < n,
        ensures
            r == self.image(i as int),
    {
        match self {
            Permutation::Identity => i,
            Permutation::Explicit { perm, perm_inv } => perm[i],
        }
    }

    /// The index whose image is `k`.
    pub fn at_inv(&self, k: usize) -> (r: usize)
        requires
            exists|n: nat| self.wf_for(n) && k < n,
        ensures
            r == self.preimage(k as int),
    {
        match self {
            Permutation::Identity => k,
            Permutation::Explicit { perm, perm_inv } => perm_inv[k],
        }
    }

    /// Both directions stay inside `0..n` and undo each other.
    pub proof fn lemma_round_trip(&self, n: nat, i: int)
        requires
            self.wf_for(n),
            0 <= i < n,
        ensures
            0 <= self.image(i) < n,
            0 <= self.preimage(i) < n,
            self.preimage(self.image(i)) == i,
            self.image(self.preimage(i)) == i,
    {
    }
}

} // verus!
