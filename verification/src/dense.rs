//! The factor as a matrix of entries, and its products as sums over entries.
//!
//! A factor is stored by columns, and the solves and products walk the
//! storage. Here the same products are written with the entries `L[r][c]` and
//! sums over whole rows and columns, which is the form in which `L D Lt` can
//! be compared with a matrix.

use vstd::prelude::*;
use vstd::std_specs::ops::{AddSpec, MulSpec};
use crate::exact::{
    distributes, exact, lemma_add_assoc, lemma_add_cancel, lemma_add_zero, lemma_distribute,
    lemma_mul_assoc, lemma_mul_cancel, lemma_mul_comm, lemma_mul_zero,
};
use crate::products::{
    below, col_dot, d_times, l_times, lt_times, row_dot, row_dot_col, strictly_lower,
};
use crate::scalar::Scalar;
use crate::solve::{factor_shape, lemma_shape_monotone};
use crate::sums::{
    lemma_range_sum_add, lemma_range_sum_agree, lemma_range_sum_exchange,
    lemma_range_sum_scale_left, lemma_range_sum_scale_right, lemma_range_sum_single,
    lemma_range_sum_tail, lemma_seq_sum_is_range_sum, range_sum, seq_sum,
};

verus! {

/// Whether position `p` belongs to column `c` and holds row `r`.
pub open spec fn has_entry(
    l_colptr: Seq<usize>,
    l_indices: Seq<usize>,
    r: int,
    c: int,
    p: int,
) -> bool {
    l_colptr[c] <= p < l_colptr[c + 1] && l_indices[p] == r
}

/// The entry of `L` at row `r` and column `c`, below the diagonal: the value
/// stored there, or `zero`.
pub open spec fn l_at<N>(
    l_colptr: Seq<usize>,
    l_indices: Seq<usize>,
    l_data: Seq<N>,
    zero: N,
    r: int,
    c: int,
) -> N {
    if exists|p: int| has_entry(l_colptr, l_indices, r, c, p) {
        l_data[choose|p: int| has_entry(l_colptr, l_indices, r, c, p)]
    } else {
        zero
    }
}

/// Position `p` of column `c` holds a smaller row than the later position
/// `q`.
pub open spec fn rows_ordered(l_indices: Seq<usize>, c: int, p: int, q: int) -> bool {
    l_indices[p] < l_indices[q]
}

/// Whether the rows of every column increase.
pub open spec fn increasing_columns(l_colptr: Seq<usize>, l_indices: Seq<usize>, n: nat) -> bool {
    forall|c: int, p: int, q: int|
        0 <= c < n && l_colptr[c] <= p < q < l_colptr[c + 1] ==> #[trigger] rows_ordered(
            l_indices,
            c,
            p,
            q,
        )
}

/// The term of row `k` in component `c` of `Lt x`.
pub open spec fn lt_term<N: Scalar>(
    l_colptr: Seq<usize>,
    l_indices: Seq<usize>,
    l_data: Seq<N>,
    x: Seq<N>,
    zero: N,
    c: int,
) -> spec_fn(int) -> N {
    |k: int| l_at(l_colptr, l_indices, l_data, zero, k, c).mul_spec(x[k])
}

/// The term of column `c` in component `r` of `L v`.
pub open spec fn l_term<N: Scalar>(
    l_colptr: Seq<usize>,
    l_indices: Seq<usize>,
    l_data: Seq<N>,
    v: Seq<N>,
    zero: N,
    r: int,
) -> spec_fn(int) -> N {
    |c: int| l_at(l_colptr, l_indices, l_data, zero, r, c).mul_spec(v[c])
}

/// The term of column `j` in entry `(i, k)` of `L D Lt`.
pub open spec fn ldlt_at_term<N: Scalar>(
    l_colptr: Seq<usize>,
    l_indices: Seq<usize>,
    l_data: Seq<N>,
    d: Seq<N>,
    zero: N,
    i: int,
    k: int,
) -> spec_fn(int) -> N {
    |j: int|
        l_at(l_colptr, l_indices, l_data, zero, i, j).mul_spec(
            d[j].mul_spec(l_at(l_colptr, l_indices, l_data, zero, k, j)),
        )
}

/// Entry `(i, k)` of `L D Lt`, for `i <= k`, where `L` has ones on its
/// diagonal.
pub open spec fn ldlt_at<N: Scalar>(
    l_colptr: Seq<usize>,
    l_indices: Seq<usize>,
    l_data: Seq<N>,
    d: Seq<N>,
    zero: N,
    i: int,
    k: int,
) -> N {
    let last = if i == k {
        d[k]
    } else {
        d[i].mul_spec(l_at(l_colptr, l_indices, l_data, zero, k, i))
    };
    last.add_spec(range_sum(ldlt_at_term(l_colptr, l_indices, l_data, d, zero, i, k), i, zero))
}

/// Entry `(i, k)` of the symmetric matrix `L D Lt`.
pub open spec fn ldlt_sym<N: Scalar>(
    l_colptr: Seq<usize>,
    l_indices: Seq<usize>,
    l_data: Seq<N>,
    d: Seq<N>,
    zero: N,
    i: int,
    k: int,
) -> N {
    if i <= k {
        ldlt_at(l_colptr, l_indices, l_data, d, zero, i, k)
    } else {
        ldlt_at(l_colptr, l_indices, l_data, d, zero, k, i)
    }
}

/// The term of column `k` in component `i` of the product of `L D Lt` with
/// `x`.
pub open spec fn ldlt_times_term<N: Scalar>(
    l_colptr: Seq<usize>,
    l_indices: Seq<usize>,
    l_data: Seq<N>,
    d: Seq<N>,
    x: Seq<N>,
    zero: N,
    i: int,
) -> spec_fn(int) -> N {
    |k: int| ldlt_sym(l_colptr, l_indices, l_data, d, zero, i, k).mul_spec(x[k])
}

// ----------------------------------------------------------------------
// Entries
// ----------------------------------------------------------------------

/// A column with increasing rows holds a row at one position at most.
pub proof fn lemma_entry_unique(
    l_colptr: Seq<usize>,
    l_indices: Seq<usize>,
    n: nat,
    r: int,
    c: int,
    p: int,
    q: int,
)
    requires
        increasing_columns(l_colptr, l_indices, n),
        0 <= c < n,
        has_entry(l_colptr, l_indices, r, c, p),
        has_entry(l_colptr, l_indices, r, c, q),
    ensures
        p == q,
{
    if p < q {
        assert(rows_ordered(l_indices, c, p, q));
    }
    if q < p {
        assert(rows_ordered(l_indices, c, q, p));
    }
}

/// The entry at the row of a position is the value at the position.
pub proof fn lemma_l_at_position<N>(
    l_colptr: Seq<usize>,
    l_indices: Seq<usize>,
    l_data: Seq<N>,
    zero: N,
    n: nat,
    c: int,
    p: int,
)
    requires
        increasing_columns(l_colptr, l_indices, n),
        0 <= c < n,
        l_colptr[c] <= p < l_colptr[c + 1],
    ensures
        l_at(l_colptr, l_indices, l_data, zero, l_indices[p] as int, c) == l_data[p],
{
    let r = l_indices[p] as int;
    assert(has_entry(l_colptr, l_indices, r, c, p));
    let q = choose|q: int| has_entry(l_colptr, l_indices, r, c, q);
    lemma_entry_unique(l_colptr, l_indices, n, r, c, p, q);
}

/// `L` has no entry on or above its diagonal.
pub proof fn lemma_l_at_above<N>(
    l_colptr: Seq<usize>,
    l_indices: Seq<usize>,
    l_data: Seq<N>,
    zero: N,
    n: nat,
    r: int,
    c: int,
)
    requires
        strictly_lower(l_colptr, l_indices, n),
        0 <= c < n,
        r <= c,
    ensures
        l_at(l_colptr, l_indices, l_data, zero, r, c) == zero,
{
    if exists|p: int| has_entry(l_colptr, l_indices, r, c, p) {
        let p = choose|p: int| has_entry(l_colptr, l_indices, r, c, p);
        assert(c < below(l_indices, c, p));
    }
}

// ----------------------------------------------------------------------
// The products as sums over entries
// ----------------------------------------------------------------------

/// The rows at the positions `start..end`.
pub open spec fn rows_between(l_indices: Seq<usize>, start: int, end: int) -> Seq<int> {
    Seq::new((end - start) as nat, |t: int| l_indices[start + t] as int)
}

/// The sum over the first positions of a column is the sum of the terms of
/// their rows.
proof fn lemma_col_dot_is_seq_sum<N: Scalar>(
    l_colptr: Seq<usize>,
    l_indices: Seq<usize>,
    l_data: Seq<N>,
    x: Seq<N>,
    zero: N,
    n: nat,
    c: int,
    end: int,
)
    requires
        increasing_columns(l_colptr, l_indices, n),
        0 <= c < n,
        l_colptr[c] <= end <= l_colptr[c + 1],
    ensures
        col_dot(l_indices, l_data, x, zero, l_colptr[c] as int, end) == seq_sum(
            lt_term(l_colptr, l_indices, l_data, x, zero, c),
            rows_between(l_indices, l_colptr[c] as int, end),
            zero,
        ),
    decreases end - l_colptr[c],
{
    let start = l_colptr[c] as int;
    let g = lt_term(l_colptr, l_indices, l_data, x, zero, c);
    let rows = rows_between(l_indices, start, end);
    if end > start {
        lemma_col_dot_is_seq_sum(l_colptr, l_indices, l_data, x, zero, n, c, end - 1);
        lemma_l_at_position(l_colptr, l_indices, l_data, zero, n, c, end - 1);
        assert(rows.drop_last() =~= rows_between(l_indices, start, end - 1));
        assert(rows.last() == l_indices[end - 1] as int);
        assert(g(rows.last()) == l_data[end - 1].mul_spec(x[l_indices[end - 1] as int]));
    }
}

/// Component `c` of `Lt x` is `x[c]` and the sum over the rows `k` of
/// `L[k][c] * x[k]`.
pub proof fn lemma_lt_times_dense<N: Scalar>(
    l_colptr: Seq<usize>,
    l_indices: Seq<usize>,
    l_data: Seq<N>,
    x: Seq<N>,
    zero: N,
    c: int,
)
    requires
        exact(zero),
        factor_shape(l_colptr, l_indices, l_data.len(), x.len()),
        increasing_columns(l_colptr, l_indices, x.len()),
        0 <= c < x.len(),
    ensures
        lt_times(l_colptr, l_indices, l_data, x, zero)[c] == x[c].add_spec(
            range_sum(lt_term(l_colptr, l_indices, l_data, x, zero, c), x.len() as int, zero),
        ),
{
    let n = x.len();
    let start = l_colptr[c] as int;
    let end = l_colptr[c + 1] as int;
    let g = lt_term(l_colptr, l_indices, l_data, x, zero, c);
    let rows = rows_between(l_indices, start, end);
    lemma_shape_monotone(l_colptr, l_indices, l_data.len(), n, 0, c);
    lemma_shape_monotone(l_colptr, l_indices, l_data.len(), n, c, c + 1);
    lemma_shape_monotone(l_colptr, l_indices, l_data.len(), n, c + 1, n as int);
    lemma_col_dot_is_seq_sum(l_colptr, l_indices, l_data, x, zero, n, c, end);
    assert forall|a: int, b: int| 0 <= a < rows.len() && 0 <= b < rows.len() && a != b implies rows[a]
        != rows[b] by {
        if a < b {
            assert(rows_ordered(l_indices, c, start + a, start + b));
        } else {
            assert(rows_ordered(l_indices, c, start + b, start + a));
        }
    }
    assert forall|a: int| 0 <= a < rows.len() implies 0 <= #[trigger] rows[a] < n by {
        assert(l_indices[start + a] < n);
    }
    assert forall|k: int| 0 <= k < n && !rows.contains(k) implies #[trigger] g(k) == zero by {
        if exists|p: int| has_entry(l_colptr, l_indices, k, c, p) {
            let p = choose|p: int| has_entry(l_colptr, l_indices, k, c, p);
            assert(rows[p - start] == k);
        }
        lemma_mul_zero(zero, x[k]);
    }
    lemma_seq_sum_is_range_sum(g, rows, n as int, zero);
}

/// Over the first positions of column `c`, the entries of row `r` add
/// `L[r][c] * zc` if the row is among them, and nothing if not.
proof fn lemma_row_dot_col<N: Scalar>(
    l_colptr: Seq<usize>,
    l_indices: Seq<usize>,
    l_data: Seq<N>,
    zc: N,
    zero: N,
    n: nat,
    r: int,
    c: int,
    end: int,
    acc: N,
)
    requires
        increasing_columns(l_colptr, l_indices, n),
        0 <= c < n,
        l_colptr[c] <= end <= l_colptr[c + 1],
    ensures
        row_dot_col(l_indices, l_data, zc, r, l_colptr[c] as int, end, acc) == (if exists|p: int|
            #[trigger] has_entry(l_colptr, l_indices, r, c, p) && p < end {
            acc.add_spec(l_at(l_colptr, l_indices, l_data, zero, r, c).mul_spec(zc))
        } else {
            acc
        }),
    decreases end - l_colptr[c],
{
    let start = l_colptr[c] as int;
    if end > start {
        lemma_row_dot_col(l_colptr, l_indices, l_data, zc, zero, n, r, c, end - 1, acc);
        if l_indices[end - 1] == r {
            lemma_l_at_position(l_colptr, l_indices, l_data, zero, n, c, end - 1);
            assert(has_entry(l_colptr, l_indices, r, c, end - 1));
            if exists|p: int| #[trigger] has_entry(l_colptr, l_indices, r, c, p) && p < end - 1 {
                let p = choose|p: int|
                    #[trigger] has_entry(l_colptr, l_indices, r, c, p) && p < end - 1;
                lemma_entry_unique(l_colptr, l_indices, n, r, c, p, end - 1);
            }
        } else {
            if exists|p: int| #[trigger] has_entry(l_colptr, l_indices, r, c, p) && p < end {
                let p = choose|p: int|
                    #[trigger] has_entry(l_colptr, l_indices, r, c, p) && p < end;
                assert(has_entry(l_colptr, l_indices, r, c, p) && p < end - 1);
            }
        }
    }
}

/// The sum over the entries of row `r` in the first `c` columns is the sum
/// over these columns of `L[r][c] * v[c]`.
proof fn lemma_row_dot_dense<N: Scalar>(
    l_colptr: Seq<usize>,
    l_indices: Seq<usize>,
    l_data: Seq<N>,
    v: Seq<N>,
    zero: N,
    r: int,
    c: int,
)
    requires
        exact(zero),
        increasing_columns(l_colptr, l_indices, v.len()),
        factor_shape(l_colptr, l_indices, l_data.len(), v.len()),
        0 <= c <= v.len(),
    ensures
        row_dot(l_colptr, l_indices, l_data, v, zero, r, c) == range_sum(
            l_term(l_colptr, l_indices, l_data, v, zero, r),
            c,
            zero,
        ),
    decreases c,
{
    if c > 0 {
        let col = c - 1;
        let end = l_colptr[c] as int;
        let g = l_term(l_colptr, l_indices, l_data, v, zero, r);
        let acc = row_dot(l_colptr, l_indices, l_data, v, zero, r, col);
        lemma_row_dot_dense(l_colptr, l_indices, l_data, v, zero, r, col);
        lemma_shape_monotone(l_colptr, l_indices, l_data.len(), v.len(), col, c);
        lemma_row_dot_col(l_colptr, l_indices, l_data, v[col], zero, v.len(), r, col, end, acc);
        assert(g(col) == l_at(l_colptr, l_indices, l_data, zero, r, col).mul_spec(v[col]));
        if !(exists|p: int| #[trigger] has_entry(l_colptr, l_indices, r, col, p) && p < end) {
            if exists|p: int| has_entry(l_colptr, l_indices, r, col, p) {
                let p = choose|p: int| has_entry(l_colptr, l_indices, r, col, p);
                assert(has_entry(l_colptr, l_indices, r, col, p) && p < end);
            }
            lemma_mul_zero(zero, v[col]);
            lemma_add_zero(zero, acc);
        }
    }
}

/// Component `r` of `L v` is `v[r]` and the sum over the columns `c` of
/// `L[r][c] * v[c]`.
pub proof fn lemma_l_times_dense<N: Scalar>(
    l_colptr: Seq<usize>,
    l_indices: Seq<usize>,
    l_data: Seq<N>,
    v: Seq<N>,
    zero: N,
    r: int,
)
    requires
        exact(zero),
        factor_shape(l_colptr, l_indices, l_data.len(), v.len()),
        increasing_columns(l_colptr, l_indices, v.len()),
        0 <= r < v.len(),
    ensures
        l_times(l_colptr, l_indices, l_data, v, zero)[r] == v[r].add_spec(
            range_sum(l_term(l_colptr, l_indices, l_data, v, zero, r), v.len() as int, zero),
        ),
{
    lemma_row_dot_dense(l_colptr, l_indices, l_data, v, zero, r, v.len() as int);
}

// ----------------------------------------------------------------------
// The three products are the product with L D Lt
// ----------------------------------------------------------------------

/// What multiplies `x[k]` in component `i` of `L (D (Lt x))`, but for the
/// pivot on the diagonal: `D[i] L[k][i] + (L[i][k] D[k] + sum over j of
/// L[i][j] (D[j] L[k][j]))`.
pub open spec fn bracket<N: Scalar>(
    l_colptr: Seq<usize>,
    l_indices: Seq<usize>,
    l_data: Seq<N>,
    d: Seq<N>,
    zero: N,
    n: int,
    i: int,
    k: int,
) -> N {
    d[i].mul_spec(l_at(l_colptr, l_indices, l_data, zero, k, i)).add_spec(
        l_at(l_colptr, l_indices, l_data, zero, i, k).mul_spec(d[k]).add_spec(
            range_sum(ldlt_at_term(l_colptr, l_indices, l_data, d, zero, i, k), n, zero),
        ),
    )
}

/// The term of column `k` in the sum of the brackets of row `i` with `x`.
pub open spec fn bracket_term<N: Scalar>(
    l_colptr: Seq<usize>,
    l_indices: Seq<usize>,
    l_data: Seq<N>,
    d: Seq<N>,
    x: Seq<N>,
    zero: N,
    i: int,
) -> spec_fn(int) -> N {
    |k: int| bracket(l_colptr, l_indices, l_data, d, zero, x.len() as int, i, k).mul_spec(x[k])
}

/// `a * (d * b) == b * (d * a)`.
proof fn lemma_swap_outer<N: Scalar>(a: N, d: N, b: N)
    requires
        distributes::<N>(),
    ensures
        a.mul_spec(d.mul_spec(b)) == b.mul_spec(d.mul_spec(a)),
{
    lemma_mul_comm(a, d.mul_spec(b));
    lemma_mul_assoc(d, b, a);
    lemma_mul_comm(b, a);
    lemma_mul_assoc(d, a, b);
    lemma_mul_comm(d.mul_spec(a), b);
}

/// The sum over all columns `j` in entry `(i, k)` of `L D Lt` stops at the
/// smaller of `i` and `k`, and does not depend on the order of `i` and `k`.
proof fn lemma_ldlt_sum<N: Scalar>(
    l_colptr: Seq<usize>,
    l_indices: Seq<usize>,
    l_data: Seq<N>,
    d: Seq<N>,
    zero: N,
    n: nat,
    i: int,
    k: int,
)
    requires
        exact(zero),
        distributes::<N>(),
        strictly_lower(l_colptr, l_indices, n),
        0 <= i < n,
        0 <= k < n,
    ensures
        range_sum(ldlt_at_term(l_colptr, l_indices, l_data, d, zero, i, k), n as int, zero)
            == range_sum(
            ldlt_at_term(
                l_colptr,
                l_indices,
                l_data,
                d,
                zero,
                if i <= k {
                    i
                } else {
                    k
                },
                if i <= k {
                    k
                } else {
                    i
                },
            ),
            if i <= k {
                i
            } else {
                k
            },
            zero,
        ),
{
    let lo = if i <= k {
        i
    } else {
        k
    };
    let hi = if i <= k {
        k
    } else {
        i
    };
    let t = ldlt_at_term(l_colptr, l_indices, l_data, d, zero, i, k);
    let t2 = ldlt_at_term(l_colptr, l_indices, l_data, d, zero, lo, hi);
    assert forall|j: int| lo <= j < n implies #[trigger] t(j) == zero by {
        lemma_l_at_above(l_colptr, l_indices, l_data, zero, n, lo, j);
        lemma_mul_zero(zero, d[j]);
        lemma_mul_zero(zero, l_at(l_colptr, l_indices, l_data, zero, i, j));
        lemma_mul_zero(zero, d[j].mul_spec(l_at(l_colptr, l_indices, l_data, zero, k, j)));
    }
    lemma_range_sum_tail(t, lo, n as int, zero);
    assert forall|j: int| 0 <= j < lo implies #[trigger] t(j) == t2(j) by {
        if i > k {
            lemma_swap_outer(
                l_at(l_colptr, l_indices, l_data, zero, i, j),
                d[j],
                l_at(l_colptr, l_indices, l_data, zero, k, j),
            );
        }
    }
    lemma_range_sum_agree(t, t2, lo, zero);
}

/// Entry `(i, k)` of `L D Lt` is the bracket, with the pivot on top where
/// `i == k`.
proof fn lemma_bracket<N: Scalar>(
    l_colptr: Seq<usize>,
    l_indices: Seq<usize>,
    l_data: Seq<N>,
    d: Seq<N>,
    zero: N,
    n: nat,
    i: int,
    k: int,
)
    requires
        exact(zero),
        distributes::<N>(),
        strictly_lower(l_colptr, l_indices, n),
        0 <= i < n,
        0 <= k < n,
    ensures
        ldlt_sym(l_colptr, l_indices, l_data, d, zero, i, k) == (if i == k {
            d[i].add_spec(bracket(l_colptr, l_indices, l_data, d, zero, n as int, i, k))
        } else {
            bracket(l_colptr, l_indices, l_data, d, zero, n as int, i, k)
        }),
{
    let lik = l_at(l_colptr, l_indices, l_data, zero, i, k);
    let lki = l_at(l_colptr, l_indices, l_data, zero, k, i);
    let sum = range_sum(ldlt_at_term(l_colptr, l_indices, l_data, d, zero, i, k), n as int, zero);
    lemma_ldlt_sum(l_colptr, l_indices, l_data, d, zero, n, i, k);
    lemma_mul_zero(zero, d[i]);
    lemma_mul_zero(zero, d[k]);
    lemma_add_zero(zero, sum);
    if i == k {
        lemma_l_at_above(l_colptr, l_indices, l_data, zero, n, i, k);
    } else if i < k {
        lemma_l_at_above(l_colptr, l_indices, l_data, zero, n, i, k);
    } else {
        lemma_l_at_above(l_colptr, l_indices, l_data, zero, n, k, i);
        lemma_mul_comm(lik, d[k]);
        lemma_add_zero(zero, lik.mul_spec(d[k]).add_spec(sum));
    }
}

/// Component `i` of the product of `L D Lt` with `x` is `D[i] x[i]` and the
/// sum of the brackets of row `i` with `x`.
proof fn lemma_ldlt_times_is_bracket_sum<N: Scalar>(
    l_colptr: Seq<usize>,
    l_indices: Seq<usize>,
    l_data: Seq<N>,
    d: Seq<N>,
    x: Seq<N>,
    zero: N,
    i: int,
)
    requires
        exact(zero),
        distributes::<N>(),
        strictly_lower(l_colptr, l_indices, x.len()),
        0 <= i < x.len(),
    ensures
        range_sum(
            ldlt_times_term(l_colptr, l_indices, l_data, d, x, zero, i),
            x.len() as int,
            zero,
        ) == d[i].mul_spec(x[i]).add_spec(
            range_sum(
                bracket_term(l_colptr, l_indices, l_data, d, x, zero, i),
                x.len() as int,
                zero,
            ),
        ),
{
    let n = x.len() as int;
    let m = ldlt_times_term(l_colptr, l_indices, l_data, d, x, zero, i);
    let b = bracket_term(l_colptr, l_indices, l_data, d, x, zero, i);
    let spike = |k: int|
        if k == i {
            d[i].mul_spec(x[i])
        } else {
            zero
        };
    let both = |k: int| spike(k).add_spec(b(k));
    assert forall|k: int| 0 <= k < n implies #[trigger] m(k) == both(k) by {
        lemma_bracket(l_colptr, l_indices, l_data, d, zero, x.len(), i, k);
        let br = bracket(l_colptr, l_indices, l_data, d, zero, n, i, k);
        if k == i {
            lemma_distribute(x[k], d[i], br);
        } else {
            lemma_add_zero(zero, br.mul_spec(x[k]));
        }
    }
    lemma_range_sum_agree(m, both, n, zero);
    lemma_range_sum_add(spike, b, n, zero);
    lemma_range_sum_agree(both, |k: int| spike(k).add_spec(b(k)), n, zero);
    lemma_range_sum_single(spike, i, n, zero);
}

/// Component `i` of `L (D (Lt x))` is `D[i] x[i]` and the sum of the
/// brackets of row `i` with `x`.
proof fn lemma_operator_is_bracket_sum<N: Scalar>(
    l_colptr: Seq<usize>,
    l_indices: Seq<usize>,
    l_data: Seq<N>,
    d: Seq<N>,
    x: Seq<N>,
    zero: N,
    i: int,
)
    requires
        exact(zero),
        distributes::<N>(),
        factor_shape(l_colptr, l_indices, l_data.len(), x.len()),
        increasing_columns(l_colptr, l_indices, x.len()),
        0 <= i < x.len(),
    ensures
        l_times(
            l_colptr,
            l_indices,
            l_data,
            d_times(d, lt_times(l_colptr, l_indices, l_data, x, zero)),
            zero,
        )[i] == d[i].mul_spec(x[i]).add_spec(
            range_sum(
                bracket_term(l_colptr, l_indices, l_data, d, x, zero, i),
                x.len() as int,
                zero,
            ),
        ),
{
    let n = x.len() as int;
    let u = lt_times(l_colptr, l_indices, l_data, x, zero);
    let v = d_times(d, u);
    let big = |c: int| range_sum(lt_term(l_colptr, l_indices, l_data, x, zero, c), n, zero);
    let l = |r: int, c: int| l_at(l_colptr, l_indices, l_data, zero, r, c);
    let b = bracket_term(l_colptr, l_indices, l_data, d, x, zero, i);
    // the three sums that make up the brackets
    let pivot_terms = |k: int| d[i].mul_spec(l(k, i)).mul_spec(x[k]);
    let cross_terms = |k: int| l(i, k).mul_spec(d[k]).mul_spec(x[k]);
    let f = |c: int, k: int| l(i, c).mul_spec(d[c].mul_spec(l(k, c))).mul_spec(x[k]);
    let inner_terms = |k: int|
        range_sum(ldlt_at_term(l_colptr, l_indices, l_data, d, zero, i, k), n, zero).mul_spec(
            x[k],
        );
    let q = |c: int| l(i, c).mul_spec(d[c].mul_spec(big(c)));
    let pivot_sum = range_sum(pivot_terms, n, zero);
    let cross_sum = range_sum(cross_terms, n, zero);
    let inner_sum = range_sum(inner_terms, n, zero);

    assert forall|c: int| 0 <= c < n implies #[trigger] v[c] == d[c].mul_spec(
        x[c].add_spec(big(c)),
    ) by {
        lemma_lt_times_dense(l_colptr, l_indices, l_data, x, zero, c);
    }
    // d[c] * big(c) as a sum over k
    assert forall|c: int| 0 <= c < n implies d[c].mul_spec(#[trigger] big(c)) == range_sum(
        |k: int| d[c].mul_spec(l(k, c).mul_spec(x[k])),
        n,
        zero,
    ) by {
        let t = lt_term(l_colptr, l_indices, l_data, x, zero, c);
        lemma_range_sum_scale_left(d[c], t, n, zero);
        lemma_range_sum_agree(
            |k: int| d[c].mul_spec(t(k)),
            |k: int| d[c].mul_spec(l(k, c).mul_spec(x[k])),
            n,
            zero,
        );
    }
    // v[i] == d[i] x[i] + pivot_sum
    assert(v[i] == d[i].mul_spec(x[i]).add_spec(pivot_sum)) by {
        lemma_distribute(d[i], x[i], big(i));
        assert forall|k: int| 0 <= k < n implies #[trigger] pivot_terms(k) == d[i].mul_spec(
            l(k, i).mul_spec(x[k]),
        ) by {
            lemma_mul_assoc(d[i], l(k, i), x[k]);
        }
        lemma_range_sum_agree(pivot_terms, |k: int| d[i].mul_spec(l(k, i).mul_spec(x[k])), n, zero);
    }
    // the sum over the columns of L[i][c] v[c] == cross_sum + inner_sum
    let lv = l_term(l_colptr, l_indices, l_data, v, zero, i);
    assert forall|c: int| 0 <= c < n implies #[trigger] lv(c) == cross_terms(c).add_spec(q(c)) by {
        lemma_distribute(d[c], x[c], big(c));
        lemma_distribute(l(i, c), d[c].mul_spec(x[c]), d[c].mul_spec(big(c)));
        lemma_mul_assoc(l(i, c), d[c], x[c]);
    }
    lemma_range_sum_agree(lv, |c: int| cross_terms(c).add_spec(q(c)), n, zero);
    lemma_range_sum_add(cross_terms, q, n, zero);
    assert forall|c: int| 0 <= c < n implies #[trigger] q(c) == range_sum(
        |k: int| f(c, k),
        n,
        zero,
    ) by {
        let inner = |k: int| d[c].mul_spec(l(k, c).mul_spec(x[k]));
        lemma_range_sum_scale_left(l(i, c), inner, n, zero);
        assert forall|k: int| 0 <= k < n implies l(i, c).mul_spec(#[trigger] inner(k)) == f(
            c,
            k,
        ) by {
            lemma_mul_assoc(d[c], l(k, c), x[k]);
            lemma_mul_assoc(l(i, c), d[c].mul_spec(l(k, c)), x[k]);
        }
        lemma_range_sum_agree(|k: int| l(i, c).mul_spec(inner(k)), |k: int| f(c, k), n, zero);
    }
    lemma_range_sum_agree(q, |c: int| range_sum(|k: int| f(c, k), n, zero), n, zero);
    lemma_range_sum_exchange(f, n, n, zero);
    assert forall|k: int| 0 <= k < n implies #[trigger] inner_terms(k) == range_sum(
        |c: int| f(c, k),
        n,
        zero,
    ) by {
        let t = ldlt_at_term(l_colptr, l_indices, l_data, d, zero, i, k);
        lemma_range_sum_scale_right(t, x[k], n, zero);
        lemma_range_sum_agree(|c: int| t(c).mul_spec(x[k]), |c: int| f(c, k), n, zero);
    }
    lemma_range_sum_agree(inner_terms, |k: int| range_sum(|c: int| f(c, k), n, zero), n, zero);
    assert(range_sum(lv, n, zero) == cross_sum.add_spec(inner_sum));
    // the brackets
    let rest_terms = |k: int| cross_terms(k).add_spec(inner_terms(k));
    assert forall|k: int| 0 <= k < n implies #[trigger] b(k) == pivot_terms(k).add_spec(rest_terms(k)) by {
        let sum = range_sum(ldlt_at_term(l_colptr, l_indices, l_data, d, zero, i, k), n, zero);
        lemma_distribute(x[k], d[i].mul_spec(l(k, i)), l(i, k).mul_spec(d[k]).add_spec(sum));
        lemma_distribute(x[k], l(i, k).mul_spec(d[k]), sum);
    }
    lemma_range_sum_agree(b, |k: int| pivot_terms(k).add_spec(rest_terms(k)), n, zero);
    lemma_range_sum_add(pivot_terms, rest_terms, n, zero);
    lemma_range_sum_add(cross_terms, inner_terms, n, zero);
    lemma_range_sum_agree(rest_terms, |k: int| cross_terms(k).add_spec(inner_terms(k)), n, zero);
    assert(range_sum(b, n, zero) == pivot_sum.add_spec(cross_sum.add_spec(inner_sum)));
    lemma_l_times_dense(l_colptr, l_indices, l_data, v, zero, i);
    lemma_add_assoc(zero, d[i].mul_spec(x[i]), pivot_sum, cross_sum.add_spec(inner_sum));
}

/// In exact arithmetic the three products, one after the other, are the
/// product with the matrix `L D Lt`: component `i` of `L (D (Lt x))` is the
/// sum over the columns `k` of entry `(i, k)` of `L D Lt` times `x[k]`.
pub proof fn lemma_products_are_ldlt<N: Scalar>(
    l_colptr: Seq<usize>,
    l_indices: Seq<usize>,
    l_data: Seq<N>,
    d: Seq<N>,
    x: Seq<N>,
    zero: N,
    i: int,
)
    requires
        exact(zero),
        distributes::<N>(),
        factor_shape(l_colptr, l_indices, l_data.len(), x.len()),
        strictly_lower(l_colptr, l_indices, x.len()),
        increasing_columns(l_colptr, l_indices, x.len()),
        d.len() == x.len(),
        0 <= i < x.len(),
    ensures
        l_times(
            l_colptr,
            l_indices,
            l_data,
            d_times(d, lt_times(l_colptr, l_indices, l_data, x, zero)),
            zero,
        )[i] == range_sum(
            ldlt_times_term(l_colptr, l_indices, l_data, d, x, zero, i),
            x.len() as int,
            zero,
        ),
{
    lemma_operator_is_bracket_sum(l_colptr, l_indices, l_data, d, x, zero, i);
    lemma_ldlt_times_is_bracket_sum(l_colptr, l_indices, l_data, d, x, zero, i);
}

// ----------------------------------------------------------------------
// The products are one to one
// ----------------------------------------------------------------------

/// Two vectors with `L v1 == L v2` are the same.
pub proof fn lemma_l_times_injective<N: Scalar>(
    l_colptr: Seq<usize>,
    l_indices: Seq<usize>,
    l_data: Seq<N>,
    v1: Seq<N>,
    v2: Seq<N>,
    zero: N,
    r: int,
)
    requires
        exact(zero),
        factor_shape(l_colptr, l_indices, l_data.len(), v1.len()),
        strictly_lower(l_colptr, l_indices, v1.len()),
        increasing_columns(l_colptr, l_indices, v1.len()),
        v1.len() == v2.len(),
        l_times(l_colptr, l_indices, l_data, v1, zero) == l_times(
            l_colptr,
            l_indices,
            l_data,
            v2,
            zero,
        ),
        0 <= r < v1.len(),
    ensures
        v1[r] == v2[r],
    decreases r,
{
    let n = v1.len() as int;
    let t1 = l_term(l_colptr, l_indices, l_data, v1, zero, r);
    let t2 = l_term(l_colptr, l_indices, l_data, v2, zero, r);
    assert forall|c: int| 0 <= c < n implies #[trigger] t1(c) == t2(c) by {
        if c < r {
            lemma_l_times_injective(l_colptr, l_indices, l_data, v1, v2, zero, c);
        } else {
            lemma_l_at_above(l_colptr, l_indices, l_data, zero, v1.len(), r, c);
            lemma_mul_zero(zero, v1[c]);
            lemma_mul_zero(zero, v2[c]);
        }
    }
    lemma_range_sum_agree(t1, t2, n, zero);
    lemma_l_times_dense(l_colptr, l_indices, l_data, v1, zero, r);
    lemma_l_times_dense(l_colptr, l_indices, l_data, v2, zero, r);
    lemma_add_cancel(zero, v1[r], v2[r], range_sum(t1, n, zero));
}

/// Two vectors with `Lt x1 == Lt x2` are the same.
pub proof fn lemma_lt_times_injective<N: Scalar>(
    l_colptr: Seq<usize>,
    l_indices: Seq<usize>,
    l_data: Seq<N>,
    x1: Seq<N>,
    x2: Seq<N>,
    zero: N,
    c: int,
)
    requires
        exact(zero),
        factor_shape(l_colptr, l_indices, l_data.len(), x1.len()),
        strictly_lower(l_colptr, l_indices, x1.len()),
        increasing_columns(l_colptr, l_indices, x1.len()),
        x1.len() == x2.len(),
        lt_times(l_colptr, l_indices, l_data, x1, zero) == lt_times(
            l_colptr,
            l_indices,
            l_data,
            x2,
            zero,
        ),
        0 <= c < x1.len(),
    ensures
        x1[c] == x2[c],
    decreases x1.len() - c,
{
    let n = x1.len() as int;
    let t1 = lt_term(l_colptr, l_indices, l_data, x1, zero, c);
    let t2 = lt_term(l_colptr, l_indices, l_data, x2, zero, c);
    assert forall|k: int| 0 <= k < n implies #[trigger] t1(k) == t2(k) by {
        if k > c {
            lemma_lt_times_injective(l_colptr, l_indices, l_data, x1, x2, zero, k);
        } else {
            lemma_l_at_above(l_colptr, l_indices, l_data, zero, x1.len(), k, c);
            lemma_mul_zero(zero, x1[k]);
            lemma_mul_zero(zero, x2[k]);
        }
    }
    lemma_range_sum_agree(t1, t2, n, zero);
    lemma_lt_times_dense(l_colptr, l_indices, l_data, x1, zero, c);
    lemma_lt_times_dense(l_colptr, l_indices, l_data, x2, zero, c);
    lemma_add_cancel(zero, x1[c], x2[c], range_sum(t1, n, zero));
}

/// Two vectors with `L (D (Lt x1)) == L (D (Lt x2))` are the same, if no
/// pivot is `zero`.
pub proof fn lemma_products_injective<N: Scalar>(
    l_colptr: Seq<usize>,
    l_indices: Seq<usize>,
    l_data: Seq<N>,
    d: Seq<N>,
    x1: Seq<N>,
    x2: Seq<N>,
    zero: N,
)
    requires
        exact(zero),
        factor_shape(l_colptr, l_indices, l_data.len(), x1.len()),
        strictly_lower(l_colptr, l_indices, x1.len()),
        increasing_columns(l_colptr, l_indices, x1.len()),
        d.len() == x1.len(),
        forall|i: int| 0 <= i < d.len() ==> #[trigger] d[i] != zero,
        x1.len() == x2.len(),
        l_times(
            l_colptr,
            l_indices,
            l_data,
            d_times(d, lt_times(l_colptr, l_indices, l_data, x1, zero)),
            zero,
        ) == l_times(
            l_colptr,
            l_indices,
            l_data,
            d_times(d, lt_times(l_colptr, l_indices, l_data, x2, zero)),
            zero,
        ),
    ensures
        x1 == x2,
{
    let u1 = lt_times(l_colptr, l_indices, l_data, x1, zero);
    let u2 = lt_times(l_colptr, l_indices, l_data, x2, zero);
    let v1 = d_times(d, u1);
    let v2 = d_times(d, u2);
    assert forall|i: int| 0 <= i < x1.len() implies u1[i] == u2[i] by {
        lemma_l_times_injective(l_colptr, l_indices, l_data, v1, v2, zero, i);
        assert(d[i] != zero);
        lemma_mul_cancel(zero, d[i], u1[i], u2[i]);
    }
    assert(u1 =~= u2);
    assert forall|i: int| 0 <= i < x1.len() implies x1[i] == x2[i] by {
        lemma_lt_times_injective(l_colptr, l_indices, l_data, x1, x2, zero, i);
    }
    assert(x1 =~= x2);
}

} // verus!
