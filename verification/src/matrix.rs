//! Square sparse matrices in compressed column storage.

use vstd::prelude::*;
use vstd::std_specs::cmp::PartialEqSpec;
use crate::etree::pattern_wf;
use crate::permutation::Permutation;

verus! {

/// A square matrix stored column by column.
///
/// Column `c` occupies the positions `indptr[c]..indptr[c + 1]` of `indices`
/// (the rows) and of `data` (the values).
pub struct CsMat<N> {
    pub dim: usize,
    pub indptr: Vec<usize>,
    pub indices: Vec<usize>,
    pub data: Vec<N>,
}

/// Whether the three arrays describe a `dim` by `dim` matrix: the column
/// pointers start at zero, never decrease and end at the number of entries,
/// every row index is below `dim`, and the rows of a column strictly increase.
pub open spec fn csc_structure(
    dim: nat,
    indptr: Seq<usize>,
    indices: Seq<usize>,
    data_len: nat,
) -> bool {
    &&& indptr.len() == dim + 1
    &&& indptr[0] == 0
    &&& indptr[dim as int] == indices.len()
    &&& indices.len() == data_len
    &&& forall|c: int| 0 <= c < dim ==> #[trigger] indptr[c] <= indptr[c + 1]
    &&& forall|p: int| 0 <= p < indices.len() ==> (#[trigger] indices[p]) < dim
    &&& forall|c: int, p: int|
        0 <= c < dim && indptr[c] <= p && p + 1 < indptr[c + 1] ==> #[trigger] ordered_pair(
            indptr,
            indices,
            c,
            p,
        )
}

/// Positions `p` and `p + 1` of column `c` hold increasing rows.
pub open spec fn ordered_pair(indptr: Seq<usize>, indices: Seq<usize>, c: int, p: int) -> bool {
    indices[p] < indices[p + 1]
}

/// Column pointers that never decrease from one column to the next never
/// decrease over any distance.
pub proof fn lemma_indptr_monotone(indptr: Seq<usize>, a: int, b: int)
    requires
        forall|c: int| 0 <= c < indptr.len() - 1 ==> #[trigger] indptr[c] <= indptr[c + 1],
        0 <= a <= b < indptr.len(),
    ensures
        indptr[a] <= indptr[b],
    decreases b - a,
{
    if a < b {
        lemma_indptr_monotone(indptr, a, b - 1);
        assert(indptr[b - 1] <= indptr[b - 1 + 1]);
    }
}

impl<N> CsMat<N> {
    /// The structural invariant of the storage.
    pub open spec fn wf(&self) -> bool {
        csc_structure(self.dim as nat, self.indptr@, self.indices@, self.data@.len())
    }

    /// Where column `c` starts.
    pub open spec fn col_start(&self, c: int) -> int {
        self.indptr@[c] as int
    }

    /// Where column `c` ends.
    pub open spec fn col_end(&self, c: int) -> int {
        self.indptr@[c + 1] as int
    }

    /// Whether position `p` belongs to column `j` and holds row `i`.
    pub open spec fn holds(&self, i: int, j: int, p: int) -> bool {
        self.col_start(j) <= p < self.col_end(j) && self.indices@[p] == i
    }

    /// The value stored at row `i` of column `j`, if one is stored there.
    pub open spec fn entry(&self, i: int, j: int) -> Option<N> {
        if exists|p: int| self.holds(i, j, p) {
            Some(self.data@[choose|p: int| self.holds(i, j, p)])
        } else {
            None
        }
    }

    /// The rows of column `k` of `P A Pt`, in storage order: the entries of the
    /// column that `perm` sends to `k`, each row replaced by its image.
    pub open spec fn permuted_rows(&self, perm: &Permutation, k: int) -> Seq<int> {
        let c = perm.preimage(k);
        Seq::new(
            (self.col_end(c) - self.col_start(c)) as nat,
            |t: int| perm.image(self.indices@[self.col_start(c) + t] as int),
        )
    }

    /// The values of column `k` of `P A Pt`, in storage order.
    pub open spec fn permuted_vals(&self, perm: &Permutation, k: int) -> Seq<N> {
        let c = perm.preimage(k);
        self.data@.subrange(self.col_start(c), self.col_end(c))
    }

    /// The sparsity pattern of `P A Pt`, column by column.
    pub open spec fn permuted_pattern(&self, perm: &Permutation) -> Seq<Seq<int>> {
        Seq::new(self.dim as nat, |k: int| self.permuted_rows(perm, k))
    }

    /// The values of `P A Pt`, column by column.
    pub open spec fn permuted_values(&self, perm: &Permutation) -> Seq<Seq<N>> {
        Seq::new(self.dim as nat, |k: int| self.permuted_vals(perm, k))
    }

    /// Every position of a column lies inside the arrays.
    pub proof fn lemma_col_bounds(&self, c: int)
        requires
            self.wf(),
            0 <= c < self.dim,
        ensures
            0 <= self.col_start(c) <= self.col_end(c) <= self.indices@.len(),
            self.indices@.len() == self.data@.len(),
    {
        lemma_indptr_monotone(self.indptr@, c, c + 1);
        lemma_indptr_monotone(self.indptr@, c + 1, self.dim as int);
    }

    /// The permuted pattern has one column for each column of the matrix, and
    /// every row index in it names a column.
    pub proof fn lemma_permuted_pattern(&self, perm: &Permutation)
        requires
            self.wf(),
            perm.wf_for(self.dim as nat),
        ensures
            self.permuted_pattern(perm).len() == self.dim,
            pattern_wf(self.permuted_pattern(perm)),
    {
        let pat = self.permuted_pattern(perm);
        assert forall|k: int, t: int| 0 <= k < pat.len() && 0 <= t < pat[k].len() implies 0
            <= #[trigger] pat[k][t] < pat.len() by {
            perm.lemma_round_trip(self.dim as nat, k);
            let c = perm.preimage(k);
            self.lemma_col_bounds(c);
            let r = self.indices@[self.col_start(c) + t] as int;
            perm.lemma_round_trip(self.dim as nat, r);
        }
    }

    /// Builds a matrix from its three arrays, if they fit together.
    pub fn from_vecs(dim: usize, indptr: Vec<usize>, indices: Vec<usize>, data: Vec<N>) -> (res:
        Option<CsMat<N>>)
        ensures
            res is Some <==> csc_structure(dim as nat, indptr@, indices@, data@.len()),
            res matches Some(m) ==> m.dim == dim && m.indptr@ == indptr@ && m.indices@
                == indices@ && m.data@ == data@ && m.wf(),
    {
        if indptr.len() == 0 || indptr.len() - 1 != dim {
            return None;
        }
        if indices.len() != data.len() || indptr[0] != 0 || indptr[dim] != indices.len() {
            return None;
        }
        let mut c: usize = 0;
        while c < dim
            invariant
                c <= dim,
                indptr@.len() == dim + 1,
                forall|b: int| 0 <= b < c ==> #[trigger] indptr@[b] <= indptr@[b + 1],
            decreases dim - c,
        {
            if indptr[c] > indptr[c + 1] {
                return None;
            }
            c += 1;
        }
        let mut c: usize = 0;
        while c < dim
            invariant
                c <= dim,
                indptr@.len() == dim + 1,
                indptr@[dim as int] == indices@.len(),
                forall|b: int| 0 <= b < dim ==> #[trigger] indptr@[b] <= indptr@[b + 1],
                forall|p: int| 0 <= p < indptr@[c as int] ==> (#[trigger] indices@[p]) < dim,
                forall|b: int, p: int|
                    0 <= b < c && indptr@[b] <= p && p + 1 < indptr@[b + 1]
                        ==> #[trigger] ordered_pair(indptr@, indices@, b, p),
            decreases dim - c,
        {
            let start: usize = indptr[c];
            let end: usize = indptr[c + 1];
            proof {
                lemma_indptr_monotone(indptr@, c as int, c + 1);
                lemma_indptr_monotone(indptr@, c + 1, dim as int);
            }
            let mut p: usize = start;
            while p < end
                invariant
                    start <= p <= end <= indices@.len(),
                    c < dim,
                    indptr@.len() == dim + 1,
                    start == indptr@[c as int],
                    end == indptr@[c + 1],
                    forall|q: int| 0 <= q < p ==> (#[trigger] indices@[q]) < dim,
                    forall|b: int, q: int|
                        0 <= b < c && indptr@[b] <= q && q + 1 < indptr@[b + 1]
                            ==> #[trigger] ordered_pair(indptr@, indices@, b, q),
                    forall|q: int|
                        start <= q && q + 1 < end && q < p ==> #[trigger] ordered_pair(
                            indptr@,
                            indices@,
                            c as int,
                            q,
                        ),
                decreases end - p,
            {
                if indices[p] >= dim {
                    return None;
                }
                if p + 1 < end && indices[p] >= indices[p + 1] {
                    proof {
                        assert(!ordered_pair(indptr@, indices@, c as int, p as int));
                    }
                    return None;
                }
                p += 1;
            }
            c += 1;
        }
        Some(CsMat { dim, indptr, indices, data })
    }

    /// The number of rows, which is also the number of columns.
    pub fn rows(&self) -> (n: usize)
        ensures
            n == self.dim,
    {
        self.dim
    }
}

impl<N: PartialEq> CsMat<N> {
    /// Whether the entry at position `p` of column `j` has an equal entry at
    /// the transposed place: in the column named by its row, at row `j`.
    pub open spec fn mirrored(&self, j: int, p: int) -> bool {
        let i = self.indices@[p] as int;
        exists|q: int|
            self.col_start(i) <= q < self.col_end(i) && #[trigger] self.indices@[q] == j
                && self.data@[q].eq_spec(&self.data@[p])
    }

    /// Whether the stored matrix equals its transpose, pattern and values.
    pub open spec fn symmetric(&self) -> bool {
        forall|j: int, p: int|
            0 <= j < self.dim && self.col_start(j) <= p < self.col_end(j) ==> #[trigger] self.mirrored(
                j,
                p,
            )
    }

    /// Looks in column `c` for the position that holds row `r`.
    pub fn find_in_column(&self, c: usize, r: usize) -> (res: Option<usize>)
        requires
            self.wf(),
            c < self.dim,
        ensures
            match res {
                Some(q) => self.col_start(c as int) <= q < self.col_end(c as int)
                    && self.indices@[q as int] == r,
                None => forall|q: int|
                    self.col_start(c as int) <= q < self.col_end(c as int)
                        ==> #[trigger] self.indices@[q] != r,
            },
    {
        proof {
            self.lemma_col_bounds(c as int);
        }
        let start: usize = self.indptr[c];
        let end: usize = self.indptr[c + 1];
        let mut q: usize = start;
        while q < end
            invariant
                start <= q <= end <= self.indices@.len(),
                start == self.col_start(c as int),
                end == self.col_end(c as int),
                forall|t: int| start <= t < q ==> #[trigger] self.indices@[t] != r,
            decreases end - q,
        {
            if self.indices[q] == r {
                return Some(q);
            }
            q += 1;
        }
        None
    }

    /// Compares the matrix with its transpose, entry by entry.
    pub fn is_symmetric(&self) -> (res: bool)
        requires
            self.wf(),
        ensures
            N::obeys_eq_spec() ==> res == self.symmetric(),
    {
        let n: usize = self.dim;
        let mut j: usize = 0;
        while j < n
            invariant
                j <= n,
                n == self.dim,
                self.wf(),
                N::obeys_eq_spec() ==> forall|b: int, p: int|
                    0 <= b < j && self.col_start(b) <= p < self.col_end(b)
                        ==> #[trigger] self.mirrored(b, p),
            decreases n - j,
        {
            proof {
                self.lemma_col_bounds(j as int);
            }
            let start: usize = self.indptr[j];
            let end: usize = self.indptr[j + 1];
            let mut p: usize = start;
            while p < end
                invariant
                    start <= p <= end <= self.indices@.len(),
                    start == self.col_start(j as int),
                    end == self.col_end(j as int),
                    j < n,
                    n == self.dim,
                    self.wf(),
                    N::obeys_eq_spec() ==> forall|b: int, t: int|
                        0 <= b < j && self.col_start(b) <= t < self.col_end(b)
                            ==> #[trigger] self.mirrored(b, t),
                    N::obeys_eq_spec() ==> forall|t: int|
                        start <= t < p ==> #[trigger] self.mirrored(j as int, t),
                decreases end - p,
            {
                let i: usize = self.indices[p];
                match self.find_in_column(i, j) {
                    None => {
                        assert(!self.mirrored(j as int, p as int));
                        return false;
                    },
                    Some(q) => {
                        proof {
                            self.lemma_col_bounds(i as int);
                        }
                        if self.data[q] != self.data[p] {
                            proof {
                                if N::obeys_eq_spec() {
                                    self.lemma_unique_position(i as int, j as int, q as int);
                                    assert(!self.mirrored(j as int, p as int));
                                }
                            }
                            return false;
                        }
                        assert(N::obeys_eq_spec() ==> self.mirrored(j as int, p as int));
                    },
                }
                p += 1;
            }
            j += 1;
        }
        true
    }
}

impl<N> CsMat<N> {
    /// The rows of a column strictly increase over any distance.
    pub proof fn lemma_rows_increase(&self, c: int, p: int, q: int)
        requires
            self.wf(),
            0 <= c < self.dim,
            self.col_start(c) <= p < q < self.col_end(c),
        ensures
            self.indices@[p] < self.indices@[q],
        decreases q - p,
    {
        assert(ordered_pair(self.indptr@, self.indices@, c, q - 1));
        if p < q - 1 {
            self.lemma_rows_increase(c, p, q - 1);
        }
    }

    /// A column holds a row at one position at most.
    pub proof fn lemma_unique_position(&self, c: int, r: int, q: int)
        requires
            self.wf(),
            0 <= c < self.dim,
            self.col_start(c) <= q < self.col_end(c),
            self.indices@[q] == r,
        ensures
            forall|t: int|
                self.col_start(c) <= t < self.col_end(c) && #[trigger] self.indices@[t] == r ==> t
                    == q,
    {
        assert forall|t: int|
            self.col_start(c) <= t < self.col_end(c) && #[trigger] self.indices@[t] == r implies t
            == q by {
            if t < q {
                self.lemma_rows_increase(c, t, q);
            }
            if q < t {
                self.lemma_rows_increase(c, q, t);
            }
        }
    }
}

} // verus!
