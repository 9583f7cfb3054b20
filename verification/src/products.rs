//! Products of a factor with a vector, and what the solves do to them.
//!
//! In exact arithmetic each solve undoes one product: after a forward solve
//! `L z` is the old vector, after a diagonal solve `D y` is, after a backward
//! solve `Lt x` is. Together they solve `L D Lt x = b`.

use vstd::prelude::*;
use vstd::std_specs::ops::{AddSpec, MulSpec};
use crate::exact::{exact, lemma_add_zero, lemma_cancel, lemma_mul_div};
use crate::scalar::Scalar;
use crate::solve::{
    dsolve, factor_shape, lemma_lsolve_col_len, lemma_ltsolve_col_len, lemma_shape_monotone,
    lsolve, lsolve_col, lsolve_upto, ltsolve, ltsolve_col, ltsolve_from,
};

verus! {

/// Whether every entry of the factor lies below the diagonal.
pub open spec fn strictly_lower(l_colptr: Seq<usize>, l_indices: Seq<usize>, n: nat) -> bool {
    forall|c: int, p: int|
        0 <= c < n && l_colptr[c] <= p < l_colptr[c + 1] ==> c < #[trigger] below(l_indices, c, p)
}

/// The row of the entry at position `p`, which belongs to column `c`.
pub open spec fn below(l_indices: Seq<usize>, c: int, p: int) -> int {
    l_indices[p] as int
}

/// The sum, over the positions `start..end`, of the value times the
/// component of `x` at the row.
pub open spec fn col_dot<N: Scalar>(
    l_indices: Seq<usize>,
    l_data: Seq<N>,
    x: Seq<N>,
    zero: N,
    start: int,
    end: int,
) -> N
    decreases end - start,
{
    if end <= start {
        zero
    } else {
        col_dot(l_indices, l_data, x, zero, start, end - 1).add_spec(
            l_data[end - 1].mul_spec(x[l_indices[end - 1] as int]),
        )
    }
}

/// The product `Lt x`, where `L` has ones on its diagonal.
pub open spec fn lt_times<N: Scalar>(
    l_colptr: Seq<usize>,
    l_indices: Seq<usize>,
    l_data: Seq<N>,
    x: Seq<N>,
    zero: N,
) -> Seq<N> {
    Seq::new(
        x.len(),
        |c: int|
            x[c].add_spec(
                col_dot(l_indices, l_data, x, zero, l_colptr[c] as int, l_colptr[c + 1] as int),
            ),
    )
}

/// `acc` plus the sum, over the positions `start..end` of column `c` that
/// hold row `r`, of the value times `zc`.
pub open spec fn row_dot_col<N: Scalar>(
    l_indices: Seq<usize>,
    l_data: Seq<N>,
    zc: N,
    r: int,
    start: int,
    end: int,
    acc: N,
) -> N
    decreases end - start,
{
    if end <= start {
        acc
    } else {
        let before = row_dot_col(l_indices, l_data, zc, r, start, end - 1, acc);
        if l_indices[end - 1] == r {
            before.add_spec(l_data[end - 1].mul_spec(zc))
        } else {
            before
        }
    }
}

/// The sum, over the entries of row `r` in the first `c` columns, of the value
/// times the component of `z` at the column.
pub open spec fn row_dot<N: Scalar>(
    l_colptr: Seq<usize>,
    l_indices: Seq<usize>,
    l_data: Seq<N>,
    z: Seq<N>,
    zero: N,
    r: int,
    c: int,
) -> N
    decreases c,
{
    if c <= 0 {
        zero
    } else {
        row_dot_col(
            l_indices,
            l_data,
            z[c - 1],
            r,
            l_colptr[c - 1] as int,
            l_colptr[c] as int,
            row_dot(l_colptr, l_indices, l_data, z, zero, r, c - 1),
        )
    }
}

/// The product `L z`, where `L` has ones on its diagonal.
pub open spec fn l_times<N: Scalar>(
    l_colptr: Seq<usize>,
    l_indices: Seq<usize>,
    l_data: Seq<N>,
    z: Seq<N>,
    zero: N,
) -> Seq<N> {
    Seq::new(
        z.len(),
        |r: int| z[r].add_spec(row_dot(l_colptr, l_indices, l_data, z, zero, r, z.len() as int)),
    )
}

/// The product `D y`.
pub open spec fn d_times<N: Scalar>(d: Seq<N>, y: Seq<N>) -> Seq<N> {
    Seq::new(y.len(), |i: int| d[i].mul_spec(y[i]))
}

// ----------------------------------------------------------------------
// Forward
// ----------------------------------------------------------------------

/// A forward solve keeps the length of the vector.
pub proof fn lemma_lsolve_upto_len<N: Scalar>(
    l_colptr: Seq<usize>,
    l_indices: Seq<usize>,
    l_data: Seq<N>,
    x: Seq<N>,
    c: int,
)
    ensures
        lsolve_upto(l_colptr, l_indices, l_data, x, c).len() == x.len(),
    decreases c,
{
    if c > 0 {
        lemma_lsolve_upto_len(l_colptr, l_indices, l_data, x, c - 1);
        lemma_lsolve_col_len(
            l_indices,
            l_data,
            lsolve_upto(l_colptr, l_indices, l_data, x, c - 1),
            c - 1,
            l_colptr[c - 1] as int,
            l_colptr[c] as int,
        );
    }
}

/// A column of a forward solve changes nothing at or above its diagonal.
pub proof fn lemma_lsolve_col_above<N: Scalar>(
    l_colptr: Seq<usize>,
    l_indices: Seq<usize>,
    l_data: Seq<N>,
    x: Seq<N>,
    n: nat,
    c: int,
    end: int,
    r: int,
)
    requires
        strictly_lower(l_colptr, l_indices, n),
        0 <= c < n,
        l_colptr[c] <= end <= l_colptr[c + 1],
        0 <= r <= c,
        x.len() == n,
    ensures
        lsolve_col(l_indices, l_data, x, c, l_colptr[c] as int, end)[r] == x[r],
    decreases end - l_colptr[c],
{
    if end > l_colptr[c] {
        lemma_lsolve_col_above(l_colptr, l_indices, l_data, x, n, c, end - 1, r);
        lemma_lsolve_col_len(l_indices, l_data, x, c, l_colptr[c] as int, end - 1);
        assert(c < below(l_indices, c, end - 1));
    }
}

/// The columns from `c` on change nothing at or above row `c`.
pub proof fn lemma_lsolve_stable<N: Scalar>(
    l_colptr: Seq<usize>,
    l_indices: Seq<usize>,
    l_data: Seq<N>,
    x: Seq<N>,
    c: int,
    c2: int,
    r: int,
)
    requires
        factor_shape(l_colptr, l_indices, l_data.len(), x.len()),
        strictly_lower(l_colptr, l_indices, x.len()),
        0 <= r <= c <= c2 <= x.len(),
    ensures
        lsolve_upto(l_colptr, l_indices, l_data, x, c2)[r] == lsolve_upto(
            l_colptr,
            l_indices,
            l_data,
            x,
            c,
        )[r],
    decreases c2 - c,
{
    if c < c2 {
        lemma_lsolve_stable(l_colptr, l_indices, l_data, x, c, c2 - 1, r);
        lemma_lsolve_upto_len(l_colptr, l_indices, l_data, x, c2 - 1);
        lemma_lsolve_col_above(
            l_colptr,
            l_indices,
            l_data,
            lsolve_upto(l_colptr, l_indices, l_data, x, c2 - 1),
            x.len(),
            c2 - 1,
            l_colptr[c2] as int,
            r,
        );
    }
}

/// Inside column `c` of a forward solve, what has been subtracted from row
/// `r` is what the row sum has gained.
proof fn lemma_lsolve_col_sum<N: Scalar>(
    l_colptr: Seq<usize>,
    l_indices: Seq<usize>,
    l_data: Seq<N>,
    x: Seq<N>,
    zero: N,
    c: int,
    end: int,
    r: int,
    acc: N,
)
    requires
        exact(zero),
        factor_shape(l_colptr, l_indices, l_data.len(), x.len()),
        strictly_lower(l_colptr, l_indices, x.len()),
        0 <= c < x.len(),
        l_colptr[c] <= end <= l_colptr[c + 1],
        0 <= r < x.len(),
    ensures
        lsolve_col(l_indices, l_data, x, c, l_colptr[c] as int, end)[r].add_spec(
            row_dot_col(l_indices, l_data, x[c], r, l_colptr[c] as int, end, acc),
        ) == x[r].add_spec(acc),
    decreases end - l_colptr[c],
{
    let start = l_colptr[c] as int;
    if end > start {
        let before = lsolve_col(l_indices, l_data, x, c, start, end - 1);
        let sum = row_dot_col(l_indices, l_data, x[c], r, start, end - 1, acc);
        lemma_lsolve_col_sum(l_colptr, l_indices, l_data, x, zero, c, end - 1, r, acc);
        lemma_lsolve_col_len(l_indices, l_data, x, c, start, end - 1);
        lemma_lsolve_col_above(l_colptr, l_indices, l_data, x, x.len(), c, end - 1, c);
        lemma_shape_monotone(l_colptr, l_indices, l_data.len(), x.len(), 0, c);
        lemma_shape_monotone(l_colptr, l_indices, l_data.len(), x.len(), c + 1, x.len() as int);
        assert(l_indices[end - 1] < x.len());
        if l_indices[end - 1] == r {
            lemma_cancel(zero, before[r], sum, l_data[end - 1].mul_spec(x[c]));
        }
    }
}

/// After the first `c` columns of a forward solve, each component and the sum
/// of its row over these columns make up the old component. The sum is taken
/// with the solution `z`.
proof fn lemma_lsolve_sum<N: Scalar>(
    l_colptr: Seq<usize>,
    l_indices: Seq<usize>,
    l_data: Seq<N>,
    b: Seq<N>,
    zero: N,
    c: int,
    r: int,
)
    requires
        exact(zero),
        factor_shape(l_colptr, l_indices, l_data.len(), b.len()),
        strictly_lower(l_colptr, l_indices, b.len()),
        0 <= c <= b.len(),
        0 <= r < b.len(),
    ensures
        lsolve_upto(l_colptr, l_indices, l_data, b, c)[r].add_spec(
            row_dot(l_colptr, l_indices, l_data, lsolve(l_colptr, l_indices, l_data, b), zero, r, c),
        ) == b[r],
    decreases c,
{
    let z = lsolve(l_colptr, l_indices, l_data, b);
    if c > 0 {
        let x = lsolve_upto(l_colptr, l_indices, l_data, b, c - 1);
        lemma_lsolve_sum(l_colptr, l_indices, l_data, b, zero, c - 1, r);
        lemma_lsolve_upto_len(l_colptr, l_indices, l_data, b, c - 1);
        lemma_lsolve_stable(l_colptr, l_indices, l_data, b, c - 1, b.len() as int, c - 1);
        assert(z[c - 1] == x[c - 1]);
        lemma_lsolve_col_sum(
            l_colptr,
            l_indices,
            l_data,
            x,
            zero,
            c - 1,
            l_colptr[c] as int,
            r,
            row_dot(l_colptr, l_indices, l_data, z, zero, r, c - 1),
        );
    } else {
        lemma_add_zero(zero, b[r]);
    }
}

/// In exact arithmetic the forward solve of `b` gives a `z` with `L z == b`.
pub proof fn lemma_lsolve_solves<N: Scalar>(
    l_colptr: Seq<usize>,
    l_indices: Seq<usize>,
    l_data: Seq<N>,
    b: Seq<N>,
    zero: N,
)
    requires
        exact(zero),
        factor_shape(l_colptr, l_indices, l_data.len(), b.len()),
        strictly_lower(l_colptr, l_indices, b.len()),
    ensures
        lsolve(l_colptr, l_indices, l_data, b).len() == b.len(),
        l_times(l_colptr, l_indices, l_data, lsolve(l_colptr, l_indices, l_data, b), zero) == b,
{
    let z = lsolve(l_colptr, l_indices, l_data, b);
    lemma_lsolve_upto_len(l_colptr, l_indices, l_data, b, b.len() as int);
    assert forall|r: int| 0 <= r < b.len() implies l_times(l_colptr, l_indices, l_data, z, zero)[r]
        == b[r] by {
        lemma_lsolve_sum(l_colptr, l_indices, l_data, b, zero, b.len() as int, r);
    }
    assert(l_times(l_colptr, l_indices, l_data, z, zero) =~= b);
}

// ----------------------------------------------------------------------
// Backward
// ----------------------------------------------------------------------

/// A backward solve keeps the length of the vector.
pub proof fn lemma_ltsolve_from_len<N: Scalar>(
    l_colptr: Seq<usize>,
    l_indices: Seq<usize>,
    l_data: Seq<N>,
    x: Seq<N>,
    c: int,
)
    ensures
        ltsolve_from(l_colptr, l_indices, l_data, x, c).len() == x.len(),
    decreases l_colptr.len() - c,
{
    if !(c + 1 >= l_colptr.len() || c < 0) {
        lemma_ltsolve_from_len(l_colptr, l_indices, l_data, x, c + 1);
        lemma_ltsolve_col_len(
            l_indices,
            l_data,
            ltsolve_from(l_colptr, l_indices, l_data, x, c + 1),
            c,
            l_colptr[c] as int,
            l_colptr[c + 1] as int,
        );
    }
}

/// A column of a backward solve changes the component of the column only.
pub proof fn lemma_ltsolve_col_elsewhere<N: Scalar>(
    l_indices: Seq<usize>,
    l_data: Seq<N>,
    x: Seq<N>,
    c: int,
    start: int,
    end: int,
    r: int,
)
    requires
        0 <= r < x.len(),
        r != c,
    ensures
        ltsolve_col(l_indices, l_data, x, c, start, end)[r] == x[r],
    decreases end - start,
{
    if end > start {
        lemma_ltsolve_col_elsewhere(l_indices, l_data, x, c, start, end - 1, r);
        lemma_ltsolve_col_len(l_indices, l_data, x, c, start, end - 1);
    }
}

/// The columns before `c2` change nothing from row `c2` on.
pub proof fn lemma_ltsolve_stable<N: Scalar>(
    l_colptr: Seq<usize>,
    l_indices: Seq<usize>,
    l_data: Seq<N>,
    x: Seq<N>,
    c: int,
    c2: int,
    r: int,
)
    requires
        l_colptr.len() == x.len() + 1,
        0 <= c <= c2 <= r < x.len(),
    ensures
        ltsolve_from(l_colptr, l_indices, l_data, x, c)[r] == ltsolve_from(
            l_colptr,
            l_indices,
            l_data,
            x,
            c2,
        )[r],
    decreases c2 - c,
{
    if c < c2 {
        lemma_ltsolve_stable(l_colptr, l_indices, l_data, x, c + 1, c2, r);
        lemma_ltsolve_from_len(l_colptr, l_indices, l_data, x, c + 1);
        lemma_ltsolve_col_elsewhere(
            l_indices,
            l_data,
            ltsolve_from(l_colptr, l_indices, l_data, x, c + 1),
            c,
            l_colptr[c] as int,
            l_colptr[c + 1] as int,
            r,
        );
    }
}

/// The columns from `c` on change nothing before row `c`.
pub proof fn lemma_ltsolve_untouched<N: Scalar>(
    l_colptr: Seq<usize>,
    l_indices: Seq<usize>,
    l_data: Seq<N>,
    x: Seq<N>,
    c: int,
    r: int,
)
    requires
        l_colptr.len() == x.len() + 1,
        0 <= r < c <= x.len(),
    ensures
        ltsolve_from(l_colptr, l_indices, l_data, x, c)[r] == x[r],
    decreases x.len() - c,
{
    if c < x.len() {
        lemma_ltsolve_untouched(l_colptr, l_indices, l_data, x, c + 1, r);
        lemma_ltsolve_from_len(l_colptr, l_indices, l_data, x, c + 1);
        lemma_ltsolve_col_elsewhere(
            l_indices,
            l_data,
            ltsolve_from(l_colptr, l_indices, l_data, x, c + 1),
            c,
            l_colptr[c] as int,
            l_colptr[c + 1] as int,
            r,
        );
    }
}

/// Inside column `c` of a backward solve, what has been subtracted from the
/// component of the column is the sum over the entries met so far. The sum is
/// taken with `z`, which agrees with the vector below row `c`.
proof fn lemma_ltsolve_col_sum<N: Scalar>(
    l_colptr: Seq<usize>,
    l_indices: Seq<usize>,
    l_data: Seq<N>,
    x: Seq<N>,
    z: Seq<N>,
    zero: N,
    c: int,
    end: int,
)
    requires
        exact(zero),
        factor_shape(l_colptr, l_indices, l_data.len(), x.len()),
        strictly_lower(l_colptr, l_indices, x.len()),
        0 <= c < x.len(),
        l_colptr[c] <= end <= l_colptr[c + 1],
        z.len() == x.len(),
        forall|r: int| c < r < x.len() ==> z[r] == x[r],
    ensures
        ltsolve_col(l_indices, l_data, x, c, l_colptr[c] as int, end)[c].add_spec(
            col_dot(l_indices, l_data, z, zero, l_colptr[c] as int, end),
        ) == x[c],
    decreases end - l_colptr[c],
{
    let start = l_colptr[c] as int;
    if end > start {
        let before = ltsolve_col(l_indices, l_data, x, c, start, end - 1);
        let sum = col_dot(l_indices, l_data, z, zero, start, end - 1);
        let row = l_indices[end - 1] as int;
        lemma_ltsolve_col_sum(l_colptr, l_indices, l_data, x, z, zero, c, end - 1);
        lemma_ltsolve_col_len(l_indices, l_data, x, c, start, end - 1);
        lemma_shape_monotone(l_colptr, l_indices, l_data.len(), x.len(), 0, c);
        lemma_shape_monotone(l_colptr, l_indices, l_data.len(), x.len(), c + 1, x.len() as int);
        assert(l_indices[end - 1] < x.len());
        assert(c < below(l_indices, c, end - 1));
        lemma_ltsolve_col_elsewhere(l_indices, l_data, x, c, start, end - 1, row);
        lemma_cancel(zero, before[c], sum, l_data[end - 1].mul_spec(z[row]));
    } else {
        lemma_add_zero(zero, x[c]);
    }
}

/// In exact arithmetic the backward solve of `y` gives an `x` with
/// `Lt x == y`.
pub proof fn lemma_ltsolve_solves<N: Scalar>(
    l_colptr: Seq<usize>,
    l_indices: Seq<usize>,
    l_data: Seq<N>,
    y: Seq<N>,
    zero: N,
)
    requires
        exact(zero),
        factor_shape(l_colptr, l_indices, l_data.len(), y.len()),
        strictly_lower(l_colptr, l_indices, y.len()),
    ensures
        ltsolve(l_colptr, l_indices, l_data, y).len() == y.len(),
        lt_times(l_colptr, l_indices, l_data, ltsolve(l_colptr, l_indices, l_data, y), zero) == y,
{
    let x = ltsolve(l_colptr, l_indices, l_data, y);
    lemma_ltsolve_from_len(l_colptr, l_indices, l_data, y, 0);
    assert forall|c: int| 0 <= c < y.len() implies lt_times(l_colptr, l_indices, l_data, x, zero)[c]
        == y[c] by {
        let after = ltsolve_from(l_colptr, l_indices, l_data, y, c + 1);
        lemma_ltsolve_from_len(l_colptr, l_indices, l_data, y, c + 1);
        assert forall|r: int| c < r < y.len() implies x[r] == after[r] by {
            lemma_ltsolve_stable(l_colptr, l_indices, l_data, y, 0, c + 1, r);
        }
        lemma_ltsolve_untouched(l_colptr, l_indices, l_data, y, c + 1, c);
        lemma_ltsolve_col_sum(l_colptr, l_indices, l_data, after, x, zero, c, l_colptr[c + 1] as int);
        lemma_ltsolve_stable(l_colptr, l_indices, l_data, y, 0, c, c);
    }
    assert(lt_times(l_colptr, l_indices, l_data, x, zero) =~= y);
}

// ----------------------------------------------------------------------
// Diagonal, and all three
// ----------------------------------------------------------------------

/// In exact arithmetic the diagonal solve of `z` gives a `y` with `D y == z`,
/// if no pivot is `zero`.
pub proof fn lemma_dsolve_solves<N: Scalar>(d: Seq<N>, z: Seq<N>, zero: N)
    requires
        exact(zero),
        d.len() == z.len(),
        forall|i: int| 0 <= i < d.len() ==> #[trigger] d[i] != zero,
    ensures
        dsolve(d, z).len() == z.len(),
        d_times(d, dsolve(d, z)) == z,
{
    assert forall|i: int| 0 <= i < z.len() implies d_times(d, dsolve(d, z))[i] == z[i] by {
        assert(d[i] != zero);
        lemma_mul_div(zero, z[i], d[i]);
    }
    assert(d_times(d, dsolve(d, z)) =~= z);
}

/// In exact arithmetic a forward, a diagonal and a backward solve, in this
/// order, turn `b` into an `x` with `L (D (Lt x)) == b`, if every entry of
/// the factor lies below the diagonal and no pivot is `zero`.
pub proof fn lemma_solve_round_trip<N: Scalar>(
    l_colptr: Seq<usize>,
    l_indices: Seq<usize>,
    l_data: Seq<N>,
    d: Seq<N>,
    b: Seq<N>,
    zero: N,
)
    requires
        exact(zero),
        factor_shape(l_colptr, l_indices, l_data.len(), b.len()),
        strictly_lower(l_colptr, l_indices, b.len()),
        d.len() == b.len(),
        forall|i: int| 0 <= i < d.len() ==> #[trigger] d[i] != zero,
    ensures
        ({
            let z = lsolve(l_colptr, l_indices, l_data, b);
            let y = dsolve(d, z);
            let x = ltsolve(l_colptr, l_indices, l_data, y);
            l_times(
                l_colptr,
                l_indices,
                l_data,
                d_times(d, lt_times(l_colptr, l_indices, l_data, x, zero)),
                zero,
            ) == b
        }),
{
    let z = lsolve(l_colptr, l_indices, l_data, b);
    let y = dsolve(d, z);
    lemma_lsolve_solves(l_colptr, l_indices, l_data, b, zero);
    lemma_dsolve_solves(d, z, zero);
    lemma_ltsolve_solves(l_colptr, l_indices, l_data, y, zero);
}

} // verus!
