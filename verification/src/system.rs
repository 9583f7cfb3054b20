//! In exact arithmetic the solves with the factor solve the system of the
//! matrix.

use vstd::prelude::*;
use vstd::std_specs::ops::MulSpec;
use vstd::std_specs::cmp::PartialEqSpec;
use crate::dense::{
    has_entry, increasing_columns, l_at, ldlt_at, ldlt_at_term, ldlt_sym, ldlt_times_term,
    lemma_products_are_ldlt, lemma_products_injective, rows_ordered,
};
use crate::etree::{
    col_count, col_ptr, col_ptrs, etree, factor_col, factor_rows, in_row, lemma_factor_col,
    lemma_factor_col_slot, lemma_slot_column, lemma_slot_in_bounds, usizes,
};
use crate::exact::{distributes, exact, lemma_eq};
use crate::factor::{factor_upto, factor_vals, lemma_factor_shape, singular_at};
use crate::matrix::CsMat;
use crate::numeric::{
    is_factor_of, lemma_factor_arrays, lemma_factor_pivots, lemma_factor_solves,
};
use crate::permutation::Permutation;
use crate::products::{
    d_times, l_times, lemma_lsolve_upto_len, lemma_ltsolve_from_len, lt_times,
};
use crate::reconstruct::{
    l_entry, ldlt_entry, ldlt_term, lemma_factor_col_increases, lemma_factor_reproduces_matrix,
    value_or,
};
use crate::scalar::Scalar;
use crate::solve::{dsolve, lsolve, ltsolve};
use crate::sums::{lemma_range_sum_agree, range_sum};

verus! {

/// Entry `(i, k)` of `P A Pt`: what `A` stores at the row and the column
/// that the permutation sends to `i` and `k`, and `zero` if it stores nothing
/// there.
pub open spec fn permuted_entry<N>(
    mat: &CsMat<N>,
    perm: &Permutation,
    zero: N,
    i: int,
    k: int,
) -> N {
    value_or(mat.entry(perm.preimage(i), perm.preimage(k)), zero)
}

/// The term of column `k` in component `i` of the product of `P A Pt` with
/// `x`.
pub open spec fn system_term<N: Scalar>(
    mat: &CsMat<N>,
    perm: &Permutation,
    x: Seq<N>,
    zero: N,
    i: int,
) -> spec_fn(int) -> N {
    |k: int| permuted_entry(mat, perm, zero, i, k).mul_spec(x[k])
}

/// What the arrays of a factor hold at a position of column `c`: a row and a
/// value of the column of the factor.
proof fn lemma_factor_position<N: Scalar>(
    mat: &CsMat<N>,
    perm: &Permutation,
    zero: N,
    l_colptr: Seq<usize>,
    l_indices: Seq<usize>,
    l_data: Seq<N>,
    diag: Seq<N>,
    c: int,
    p: int,
)
    requires
        mat.wf(),
        perm.wf_for(mat.dim as nat),
        usizes(l_colptr) == col_ptrs(mat.permuted_pattern(perm)),
        is_factor_of(mat, perm, zero, l_indices, l_data, diag),
        0 <= c < mat.dim,
        l_colptr[c] <= p < l_colptr[c + 1],
    ensures
        ({
            let pat = mat.permuted_pattern(perm);
            let f = factor_upto(pat, mat.permuted_values(perm), zero, mat.dim as nat);
            let t = p - col_ptr(pat, c);
            &&& 0 <= t < col_count(pat, c)
            &&& l_indices[p] as int == factor_col(pat, etree(pat), c, mat.dim as int)[t]
            &&& l_data[p] == f.cols[c][t]
        }),
{
    let pat = mat.permuted_pattern(perm);
    let f = factor_upto(pat, mat.permuted_values(perm), zero, mat.dim as nat);
    mat.lemma_permuted_pattern(perm);
    assert(usizes(l_colptr).len() == l_colptr.len());
    assert(usizes(l_indices).len() == l_indices.len());
    assert(usizes(l_colptr)[c] == col_ptrs(pat)[c]);
    assert(usizes(l_colptr)[c + 1] == col_ptrs(pat)[c + 1]);
    lemma_slot_column(pat, c, p);
    assert(usizes(l_indices)[p] == factor_rows(pat)[p]);
    assert(l_data[p] == factor_vals(pat, f.cols)[p]);
}

/// The entries of the arrays of a factor are the entries of its columns, and
/// the rows of each column of the arrays increase.
pub proof fn lemma_factor_entries<N: Scalar>(
    mat: &CsMat<N>,
    perm: &Permutation,
    zero: N,
    l_colptr: Seq<usize>,
    l_indices: Seq<usize>,
    l_data: Seq<N>,
    diag: Seq<N>,
)
    requires
        mat.wf(),
        perm.wf_for(mat.dim as nat),
        usizes(l_colptr) == col_ptrs(mat.permuted_pattern(perm)),
        is_factor_of(mat, perm, zero, l_indices, l_data, diag),
    ensures
        increasing_columns(l_colptr, l_indices, mat.dim as nat),
        forall|k: int, i: int|
            0 <= k < mat.dim && 0 <= i < mat.dim ==> #[trigger] l_at(
                l_colptr,
                l_indices,
                l_data,
                zero,
                k,
                i,
            ) == l_entry(
                mat.permuted_pattern(perm),
                factor_upto(
                    mat.permuted_pattern(perm),
                    mat.permuted_values(perm),
                    zero,
                    mat.dim as nat,
                ).cols,
                zero,
                k,
                i,
            ),
{
    let pat = mat.permuted_pattern(perm);
    let e = etree(pat);
    let n = mat.dim as int;
    let f = factor_upto(pat, mat.permuted_values(perm), zero, mat.dim as nat);
    mat.lemma_permuted_pattern(perm);
    lemma_factor_shape(pat, mat.permuted_values(perm), zero, mat.dim as nat);
    assert(usizes(l_colptr).len() == l_colptr.len());
    assert forall|c: int, p: int, q: int|
        0 <= c < n && l_colptr[c] <= p < q < l_colptr[c + 1] implies #[trigger] rows_ordered(
        l_indices,
        c,
        p,
        q,
    ) by {
        lemma_factor_position(mat, perm, zero, l_colptr, l_indices, l_data, diag, c, p);
        lemma_factor_position(mat, perm, zero, l_colptr, l_indices, l_data, diag, c, q);
        lemma_factor_col_increases(pat, e, c, n);
    }
    assert forall|k: int, i: int| 0 <= k < n && 0 <= i < n implies #[trigger] l_at(
        l_colptr,
        l_indices,
        l_data,
        zero,
        k,
        i,
    ) == l_entry(pat, f.cols, zero, k, i) by {
        assert(usizes(l_colptr)[i] == col_ptrs(pat)[i]);
        assert(usizes(l_colptr)[i + 1] == col_ptrs(pat)[i + 1]);
        if in_row(pat, e, k, i) {
            let t = factor_col(pat, e, i, k).len() as int;
            lemma_factor_col_slot(pat, e, i, k, n);
            lemma_slot_in_bounds(pat, i, t);
            let p = col_ptr(pat, i) + t;
            lemma_factor_position(mat, perm, zero, l_colptr, l_indices, l_data, diag, i, p);
            assert(has_entry(l_colptr, l_indices, k, i, p));
            let q = choose|q: int| has_entry(l_colptr, l_indices, k, i, q);
            if p < q {
                assert(rows_ordered(l_indices, i, p, q));
            }
            if q < p {
                assert(rows_ordered(l_indices, i, q, p));
            }
        } else {
            if exists|q: int| has_entry(l_colptr, l_indices, k, i, q) {
                let q = choose|q: int| has_entry(l_colptr, l_indices, k, i, q);
                lemma_factor_position(mat, perm, zero, l_colptr, l_indices, l_data, diag, i, q);
                lemma_factor_col(pat, e, i, n);
            }
        }
    }
}

/// What a symmetric matrix stores at row `i` of column `j` it stores at row
/// `j` of column `i`.
pub proof fn lemma_symmetric_entries<N: Scalar>(mat: &CsMat<N>, zero: N, i: int, j: int)
    requires
        exact(zero),
        mat.wf(),
        mat.symmetric(),
        0 <= i < mat.dim,
        0 <= j < mat.dim,
    ensures
        value_or(mat.entry(i, j), zero) == value_or(mat.entry(j, i), zero),
{
    if exists|p: int| mat.holds(i, j, p) {
        let p = choose|p: int| mat.holds(i, j, p);
        assert(mat.mirrored(j, p));
        let q = choose|q: int|
            mat.col_start(i) <= q < mat.col_end(i) && #[trigger] mat.indices@[q] == j
                && mat.data@[q].eq_spec(&mat.data@[p]);
        assert(mat.holds(j, i, q));
        mat.lemma_unique_position(i, j, q);
        let q2 = choose|q2: int| mat.holds(j, i, q2);
        assert(q2 == q);
        lemma_eq(zero, mat.data@[q], mat.data@[p]);
    } else if exists|q: int| mat.holds(j, i, q) {
        let q = choose|q: int| mat.holds(j, i, q);
        assert(mat.mirrored(i, q));
        let p = choose|p: int|
            mat.col_start(j) <= p < mat.col_end(j) && #[trigger] mat.indices@[p] == i
                && mat.data@[p].eq_spec(&mat.data@[q]);
        assert(mat.holds(i, j, p));
    }
}

/// In exact arithmetic, for a symmetric matrix of which no pivot comes out as
/// `zero`, the arrays of the factor reproduce the matrix: every entry of
/// `L D Lt` is the entry of `P A Pt` at the same place.
pub proof fn lemma_arrays_reproduce_matrix<N: Scalar>(
    mat: &CsMat<N>,
    perm: &Permutation,
    zero: N,
    l_colptr: Seq<usize>,
    l_indices: Seq<usize>,
    l_data: Seq<N>,
    diag: Seq<N>,
    i: int,
    k: int,
)
    requires
        exact(zero),
        mat.wf(),
        perm.wf_for(mat.dim as nat),
        mat.symmetric(),
        usizes(l_colptr) == col_ptrs(mat.permuted_pattern(perm)),
        is_factor_of(mat, perm, zero, l_indices, l_data, diag),
        forall|j: int|
            0 <= j < mat.dim ==> !#[trigger] singular_at(
                mat.permuted_pattern(perm),
                mat.permuted_values(perm),
                zero,
                j,
            ),
        0 <= i < mat.dim,
        0 <= k < mat.dim,
    ensures
        ldlt_sym(l_colptr, l_indices, l_data, diag, zero, i, k) == permuted_entry(
            mat,
            perm,
            zero,
            i,
            k,
        ),
{
    let pat = mat.permuted_pattern(perm);
    let f = factor_upto(pat, mat.permuted_values(perm), zero, mat.dim as nat);
    let lo = if i <= k {
        i
    } else {
        k
    };
    let hi = if i <= k {
        k
    } else {
        i
    };
    lemma_factor_entries(mat, perm, zero, l_colptr, l_indices, l_data, diag);
    perm.lemma_round_trip(mat.dim as nat, lo);
    perm.lemma_round_trip(mat.dim as nat, hi);
    lemma_factor_reproduces_matrix(mat, perm, zero, perm.preimage(lo), perm.preimage(hi));
    let t = ldlt_at_term(l_colptr, l_indices, l_data, diag, zero, lo, hi);
    let t2 = ldlt_term(pat, f.cols, f.diag, zero, lo, hi);
    assert forall|j: int| 0 <= j < lo implies #[trigger] t(j) == t2(j) by {
        assert(l_at(l_colptr, l_indices, l_data, zero, lo, j) == l_entry(pat, f.cols, zero, lo, j));
        assert(l_at(l_colptr, l_indices, l_data, zero, hi, j) == l_entry(pat, f.cols, zero, hi, j));
    }
    lemma_range_sum_agree(t, t2, lo, zero);
    assert(l_at(l_colptr, l_indices, l_data, zero, hi, lo) == l_entry(pat, f.cols, zero, hi, lo));
    assert(ldlt_at(l_colptr, l_indices, l_data, diag, zero, lo, hi) == ldlt_entry(
        pat,
        f.cols,
        f.diag,
        zero,
        lo,
        hi,
    ));
    if i > k {
        lemma_symmetric_entries(mat, zero, perm.preimage(k), perm.preimage(i));
    }
}

/// In exact arithmetic, for a symmetric matrix, the product of `P A Pt` with
/// a vector is what the three products with the factor give one after the
/// other, if no pivot comes out as `zero`.
pub proof fn lemma_system_is_products<N: Scalar>(
    mat: &CsMat<N>,
    perm: &Permutation,
    zero: N,
    l_colptr: Seq<usize>,
    l_indices: Seq<usize>,
    l_data: Seq<N>,
    diag: Seq<N>,
    x: Seq<N>,
    i: int,
)
    requires
        exact(zero),
        distributes::<N>(),
        mat.wf(),
        perm.wf_for(mat.dim as nat),
        mat.symmetric(),
        usizes(l_colptr) == col_ptrs(mat.permuted_pattern(perm)),
        is_factor_of(mat, perm, zero, l_indices, l_data, diag),
        forall|k: int|
            0 <= k < mat.dim ==> !#[trigger] singular_at(
                mat.permuted_pattern(perm),
                mat.permuted_values(perm),
                zero,
                k,
            ),
        x.len() == mat.dim,
        0 <= i < mat.dim,
    ensures
        range_sum(system_term(mat, perm, x, zero, i), mat.dim as int, zero) == l_times(
            l_colptr,
            l_indices,
            l_data,
            d_times(diag, lt_times(l_colptr, l_indices, l_data, x, zero)),
            zero,
        )[i],
{
    let n = mat.dim as int;
    lemma_factor_arrays(mat, perm, zero, l_colptr, l_indices, l_data, diag);
    lemma_factor_entries(mat, perm, zero, l_colptr, l_indices, l_data, diag);
    lemma_products_are_ldlt(l_colptr, l_indices, l_data, diag, x, zero, i);
    let m = ldlt_times_term(l_colptr, l_indices, l_data, diag, x, zero, i);
    let s = system_term(mat, perm, x, zero, i);
    assert forall|k: int| 0 <= k < n implies #[trigger] m(k) == s(k) by {
        lemma_arrays_reproduce_matrix(mat, perm, zero, l_colptr, l_indices, l_data, diag, i, k);
    }
    lemma_range_sum_agree(m, s, n, zero);
}

/// In exact arithmetic, for a symmetric matrix of which no pivot comes out as
/// `zero`, a forward, a diagonal and a backward solve with the factor of
/// `P A Pt` turn `b` into a solution of the system: for every row `i`, the
/// sum over the columns `k` of entry `(i, k)` of `P A Pt` times `x[k]` is
/// `b[i]`.
pub proof fn lemma_solves_system<N: Scalar>(
    mat: &CsMat<N>,
    perm: &Permutation,
    zero: N,
    l_colptr: Seq<usize>,
    l_indices: Seq<usize>,
    l_data: Seq<N>,
    diag: Seq<N>,
    b: Seq<N>,
    i: int,
)
    requires
        exact(zero),
        distributes::<N>(),
        mat.wf(),
        perm.wf_for(mat.dim as nat),
        mat.symmetric(),
        usizes(l_colptr) == col_ptrs(mat.permuted_pattern(perm)),
        is_factor_of(mat, perm, zero, l_indices, l_data, diag),
        forall|k: int|
            0 <= k < mat.dim ==> !#[trigger] singular_at(
                mat.permuted_pattern(perm),
                mat.permuted_values(perm),
                zero,
                k,
            ),
        b.len() == mat.dim,
        0 <= i < mat.dim,
    ensures
        ({
            let z = lsolve(l_colptr, l_indices, l_data, b);
            let y = dsolve(diag, z);
            let x = ltsolve(l_colptr, l_indices, l_data, y);
            &&& x.len() == mat.dim
            &&& range_sum(system_term(mat, perm, x, zero, i), mat.dim as int, zero) == b[i]
        }),
{
    let n = mat.dim as int;
    let z = lsolve(l_colptr, l_indices, l_data, b);
    let y = dsolve(diag, z);
    let x = ltsolve(l_colptr, l_indices, l_data, y);
    lemma_factor_solves(mat, perm, zero, l_colptr, l_indices, l_data, diag, b);
    lemma_lsolve_upto_len(l_colptr, l_indices, l_data, b, n);
    lemma_ltsolve_from_len(l_colptr, l_indices, l_data, y, 0);
    lemma_factor_arrays(mat, perm, zero, l_colptr, l_indices, l_data, diag);
    lemma_system_is_products(mat, perm, zero, l_colptr, l_indices, l_data, diag, x, i);
}

/// In exact arithmetic, for a symmetric matrix of which no pivot comes out as
/// `zero`, the system has no other solution than the one that the solves
/// give: a vector `x` whose product with `P A Pt` is `b` is the result of the
/// forward, the diagonal and the backward solve of `b`.
pub proof fn lemma_solution_unique<N: Scalar>(
    mat: &CsMat<N>,
    perm: &Permutation,
    zero: N,
    l_colptr: Seq<usize>,
    l_indices: Seq<usize>,
    l_data: Seq<N>,
    diag: Seq<N>,
    b: Seq<N>,
    x: Seq<N>,
)
    requires
        exact(zero),
        distributes::<N>(),
        mat.wf(),
        perm.wf_for(mat.dim as nat),
        mat.symmetric(),
        usizes(l_colptr) == col_ptrs(mat.permuted_pattern(perm)),
        is_factor_of(mat, perm, zero, l_indices, l_data, diag),
        forall|k: int|
            0 <= k < mat.dim ==> !#[trigger] singular_at(
                mat.permuted_pattern(perm),
                mat.permuted_values(perm),
                zero,
                k,
            ),
        b.len() == mat.dim,
        x.len() == mat.dim,
        forall|i: int|
            0 <= i < mat.dim ==> range_sum(
                #[trigger] system_term(mat, perm, x, zero, i),
                mat.dim as int,
                zero,
            ) == b[i],
    ensures
        x == ltsolve(
            l_colptr,
            l_indices,
            l_data,
            dsolve(diag, lsolve(l_colptr, l_indices, l_data, b)),
        ),
{
    let n = mat.dim as int;
    let z = lsolve(l_colptr, l_indices, l_data, b);
    let y = dsolve(diag, z);
    let x0 = ltsolve(l_colptr, l_indices, l_data, y);
    let image = l_times(
        l_colptr,
        l_indices,
        l_data,
        d_times(diag, lt_times(l_colptr, l_indices, l_data, x, zero)),
        zero,
    );
    let image_of_solution = l_times(
        l_colptr,
        l_indices,
        l_data,
        d_times(diag, lt_times(l_colptr, l_indices, l_data, x0, zero)),
        zero,
    );
    lemma_factor_solves(mat, perm, zero, l_colptr, l_indices, l_data, diag, b);
    lemma_lsolve_upto_len(l_colptr, l_indices, l_data, b, n);
    lemma_ltsolve_from_len(l_colptr, l_indices, l_data, y, 0);
    lemma_factor_arrays(mat, perm, zero, l_colptr, l_indices, l_data, diag);
    lemma_factor_entries(mat, perm, zero, l_colptr, l_indices, l_data, diag);
    lemma_factor_pivots(mat, perm, zero, l_indices, l_data, diag);
    assert forall|i: int| 0 <= i < n implies image[i] == image_of_solution[i] by {
        lemma_system_is_products(mat, perm, zero, l_colptr, l_indices, l_data, diag, x, i);
        assert(range_sum(system_term(mat, perm, x, zero, i), n, zero) == b[i]);
    }
    assert(image =~= image_of_solution);
    assert forall|i: int| 0 <= i < diag.len() implies #[trigger] diag[i] != zero by {
        lemma_eq(zero, diag[i], zero);
    }
    lemma_products_injective(l_colptr, l_indices, l_data, diag, x, x0, zero);
}

} // verus!
