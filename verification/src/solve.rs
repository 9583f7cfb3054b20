//! The three solves that turn a factor into the solution of a system.
//!
//! With the factor `L D Lt` of `P A Pt`, a forward solve, a diagonal solve
//! and a backward solve, in this order, solve `(P A Pt) x = b` in place. The
//! caller permutes the right-hand side and the solution.

use vstd::prelude::*;
use vstd::std_specs::ops::{SubSpec, MulSpec, DivSpec};
use crate::scalar::{ring_like, Scalar};

verus! {

/// Whether the arrays can hold the part below the diagonal of an `n` by `n`
/// factor: the column pointers never decrease and stay inside the arrays, and
/// every row index is below `n`.
pub open spec fn factor_shape(
    l_colptr: Seq<usize>,
    l_indices: Seq<usize>,
    data_len: nat,
    n: nat,
) -> bool {
    &&& l_colptr.len() == n + 1
    &&& l_indices.len() == data_len
    &&& l_colptr[n as int] <= l_indices.len()
    &&& forall|c: int| 0 <= c < n ==> #[trigger] l_colptr[c] <= l_colptr[c + 1]
    &&& forall|p: int| l_colptr[0] <= p < l_colptr[n as int] ==> (#[trigger] l_indices[p]) < n
}

/// The vector after the entries at the positions `start..end` of column
/// `col` took part in a forward solve: each subtracts its value times the
/// component of the column from the component of its row.
pub open spec fn lsolve_col<N: Scalar>(
    l_indices: Seq<usize>,
    l_data: Seq<N>,
    x: Seq<N>,
    col: int,
    start: int,
    end: int,
) -> Seq<N>
    decreases end - start,
{
    if end <= start {
        x
    } else {
        let before = lsolve_col(l_indices, l_data, x, col, start, end - 1);
        let row = l_indices[end - 1] as int;
        if row < before.len() {
            before.update(row, before[row].sub_spec(l_data[end - 1].mul_spec(before[col])))
        } else {
            before
        }
    }
}

/// The vector after the first `c` columns took part in a forward solve.
pub open spec fn lsolve_upto<N: Scalar>(
    l_colptr: Seq<usize>,
    l_indices: Seq<usize>,
    l_data: Seq<N>,
    x: Seq<N>,
    c: int,
) -> Seq<N>
    decreases c,
{
    if c <= 0 {
        x
    } else {
        lsolve_col(
            l_indices,
            l_data,
            lsolve_upto(l_colptr, l_indices, l_data, x, c - 1),
            c - 1,
            l_colptr[c - 1] as int,
            l_colptr[c] as int,
        )
    }
}

/// The result of the forward solve `L z = x`: the columns take part in
/// increasing order.
pub open spec fn lsolve<N: Scalar>(
    l_colptr: Seq<usize>,
    l_indices: Seq<usize>,
    l_data: Seq<N>,
    x: Seq<N>,
) -> Seq<N> {
    lsolve_upto(l_colptr, l_indices, l_data, x, l_colptr.len() - 1)
}

/// The vector after the entries at the positions `start..end` of column
/// `col` took part in a backward solve: each subtracts its value times the
/// component of its row from the component of the column.
pub open spec fn ltsolve_col<N: Scalar>(
    l_indices: Seq<usize>,
    l_data: Seq<N>,
    x: Seq<N>,
    col: int,
    start: int,
    end: int,
) -> Seq<N>
    decreases end - start,
{
    if end <= start {
        x
    } else {
        let before = ltsolve_col(l_indices, l_data, x, col, start, end - 1);
        let row = l_indices[end - 1] as int;
        if 0 <= col < before.len() {
            before.update(col, before[col].sub_spec(l_data[end - 1].mul_spec(before[row])))
        } else {
            before
        }
    }
}

/// The vector after the columns from `c` on took part in a backward solve,
/// the last column first.
pub open spec fn ltsolve_from<N: Scalar>(
    l_colptr: Seq<usize>,
    l_indices: Seq<usize>,
    l_data: Seq<N>,
    x: Seq<N>,
    c: int,
) -> Seq<N>
    decreases l_colptr.len() - c,
{
    if c + 1 >= l_colptr.len() || c < 0 {
        x
    } else {
        ltsolve_col(
            l_indices,
            l_data,
            ltsolve_from(l_colptr, l_indices, l_data, x, c + 1),
            c,
            l_colptr[c] as int,
            l_colptr[c + 1] as int,
        )
    }
}

/// The result of the backward solve `Lt z = x`: the columns take part in
/// decreasing order.
pub open spec fn ltsolve<N: Scalar>(
    l_colptr: Seq<usize>,
    l_indices: Seq<usize>,
    l_data: Seq<N>,
    x: Seq<N>,
) -> Seq<N> {
    ltsolve_from(l_colptr, l_indices, l_data, x, 0)
}

/// The vector `x` divided elementwise by `d`.
pub open spec fn dsolve<N: Scalar>(d: Seq<N>, x: Seq<N>) -> Seq<N> {
    Seq::new(x.len(), |i: int| x[i].div_spec(d[i]))
}

/// A column of a forward solve keeps the length of the vector.
pub proof fn lemma_lsolve_col_len<N: Scalar>(
    l_indices: Seq<usize>,
    l_data: Seq<N>,
    x: Seq<N>,
    col: int,
    start: int,
    end: int,
)
    ensures
        lsolve_col(l_indices, l_data, x, col, start, end).len() == x.len(),
    decreases end - start,
{
    if end > start {
        lemma_lsolve_col_len(l_indices, l_data, x, col, start, end - 1);
    }
}

/// A column of a backward solve keeps the length of the vector.
pub proof fn lemma_ltsolve_col_len<N: Scalar>(
    l_indices: Seq<usize>,
    l_data: Seq<N>,
    x: Seq<N>,
    col: int,
    start: int,
    end: int,
)
    ensures
        ltsolve_col(l_indices, l_data, x, col, start, end).len() == x.len(),
    decreases end - start,
{
    if end > start {
        lemma_ltsolve_col_len(l_indices, l_data, x, col, start, end - 1);
    }
}

/// The column pointers of a factor never decrease over any distance.
pub proof fn lemma_shape_monotone(
    l_colptr: Seq<usize>,
    l_indices: Seq<usize>,
    data_len: nat,
    n: nat,
    a: int,
    b: int,
)
    requires
        factor_shape(l_colptr, l_indices, data_len, n),
        0 <= a <= b <= n,
    ensures
        l_colptr[a] <= l_colptr[b],
    decreases b - a,
{
    if a < b {
        lemma_shape_monotone(l_colptr, l_indices, data_len, n, a, b - 1);
        assert(l_colptr[b - 1] <= l_colptr[b - 1 + 1]);
    }
}

/// Solves `L z = x` in place, where `L` has ones on its diagonal and below it
/// the entries of the arrays.
pub fn ldl_lsolve<N: Scalar>(l_colptr: &[usize], l_indices: &[usize], l_data: &[N], x: &mut [N])
    requires
        factor_shape(l_colptr@, l_indices@, l_data@.len(), old(x)@.len()),
        ring_like::<N>(),
    ensures
        final(x)@.len() == old(x)@.len(),
        final(x)@ == lsolve(l_colptr@, l_indices@, l_data@, old(x)@),
{
    let n: usize = x.len();
    let mut c: usize = 0;
    while c < n
        invariant
            c <= n,
            n == x@.len(),
            n == old(x)@.len(),
            factor_shape(l_colptr@, l_indices@, l_data@.len(), n as nat),
            ring_like::<N>(),
            x@ == lsolve_upto(l_colptr@, l_indices@, l_data@, old(x)@, c as int),
        decreases n - c,
    {
        proof {
            lemma_shape_monotone(l_colptr@, l_indices@, l_data@.len(), n as nat, 0, c as int);
            lemma_shape_monotone(l_colptr@, l_indices@, l_data@.len(), n as nat, c + 1, n as int);
        }
        let start: usize = l_colptr[c];
        let end: usize = l_colptr[c + 1];
        let ghost x0 = x@;
        let mut p: usize = start;
        while p < end
            invariant
                start <= p <= end,
                l_colptr@[0] <= start,
                end <= l_colptr@[n as int],
                c < n,
                n == x@.len(),
                x0.len() == n,
                factor_shape(l_colptr@, l_indices@, l_data@.len(), n as nat),
                ring_like::<N>(),
                x@ == lsolve_col(l_indices@, l_data@, x0, c as int, start as int, p as int),
            decreases end - p,
        {
            let row: usize = l_indices[p];
            x[row] = x[row] - l_data[p] * x[c];
            p += 1;
        }
        c += 1;
    }
}

/// Solves `Lt z = x` in place, where `L` has ones on its diagonal and below
/// it the entries of the arrays.
pub fn ldl_ltsolve<N: Scalar>(l_colptr: &[usize], l_indices: &[usize], l_data: &[N], x: &mut [N])
    requires
        factor_shape(l_colptr@, l_indices@, l_data@.len(), old(x)@.len()),
        ring_like::<N>(),
    ensures
        final(x)@.len() == old(x)@.len(),
        final(x)@ == ltsolve(l_colptr@, l_indices@, l_data@, old(x)@),
{
    let n: usize = x.len();
    let mut c: usize = n;
    while c > 0
        invariant
            c <= n,
            n == x@.len(),
            n == old(x)@.len(),
            factor_shape(l_colptr@, l_indices@, l_data@.len(), n as nat),
            ring_like::<N>(),
            x@ == ltsolve_from(l_colptr@, l_indices@, l_data@, old(x)@, c as int),
        decreases c,
    {
        c -= 1;
        proof {
            lemma_shape_monotone(l_colptr@, l_indices@, l_data@.len(), n as nat, 0, c as int);
            lemma_shape_monotone(l_colptr@, l_indices@, l_data@.len(), n as nat, c + 1, n as int);
        }
        let start: usize = l_colptr[c];
        let end: usize = l_colptr[c + 1];
        let ghost x0 = x@;
        let mut p: usize = start;
        while p < end
            invariant
                start <= p <= end,
                l_colptr@[0] <= start,
                end <= l_colptr@[n as int],
                c < n,
                n == x@.len(),
                x0.len() == n,
                factor_shape(l_colptr@, l_indices@, l_data@.len(), n as nat),
                ring_like::<N>(),
                x@ == ltsolve_col(l_indices@, l_data@, x0, c as int, start as int, p as int),
            decreases end - p,
        {
            let row: usize = l_indices[p];
            x[c] = x[c] - l_data[p] * x[row];
            p += 1;
        }
    }
}

/// Solves `D y = x` in place, where `D` is the diagonal matrix of `d`.
pub fn ldl_dsolve<N: Scalar>(d: &[N], x: &mut [N])
    requires
        d@.len() == old(x)@.len(),
        N::obeys_div_spec(),
        forall|i: int| 0 <= i < d@.len() ==> #[trigger] old(x)@[i].div_req(d@[i]),
    ensures
        final(x)@.len() == old(x)@.len(),
        final(x)@ == dsolve(d@, old(x)@),
{
    let n: usize = x.len();
    let mut i: usize = 0;
    while i < n
        invariant
            i <= n,
            n == x@.len(),
            n == d@.len(),
            x@.len() == old(x)@.len(),
            N::obeys_div_spec(),
            forall|j: int| 0 <= j < d@.len() ==> #[trigger] old(x)@[j].div_req(d@[j]),
            forall|j: int| 0 <= j < i ==> x@[j] == old(x)@[j].div_spec(d@[j]),
            forall|j: int| i <= j < n ==> x@[j] == old(x)@[j],
        decreases n - i,
    {
        x[i] = x[i] / d[i];
        i += 1;
    }
    assert(x@ =~= dsolve(d@, old(x)@));
}

} // verus!
