//! In exact arithmetic the factor reproduces the matrix: `L D Lt == P A Pt`.
//!
//! The factorization reads the part of `P A Pt` on and above the diagonal.
//! Entry `(i, k)` of that part, `i <= k`, is the sum of what column `k` stores
//! at row `i`. Entry `(i, k)` of `L D Lt` is the sum over `j < i` of
//! `L[i][j] * (D[j] * L[k][j])`, and `D[i] * L[k][i]` on top, or `D[k]` where
//! `i == k`.

use vstd::prelude::*;
use vstd::std_specs::ops::{AddSpec, SubSpec, MulSpec, DivSpec};
use crate::etree::{
    etree, factor_col, in_row, lemma_factor_col, lemma_factor_col_slot, lemma_row_is_ancestor,
    pattern_wf,
};
use crate::exact::{exact, lemma_add_zero, lemma_cancel, lemma_eq, lemma_mul_div, lemma_mul_zero};
use crate::factor::{
    apply_col, eliminate, eliminate_node, factor_step, factor_upto, lemma_accumulator_cleared,
    lemma_apply_col_len, lemma_apply_col_touches, lemma_eliminate_shape, lemma_factor_shape,
    lemma_scatter_len, row_shape, row_start, scatter, singular_at, RowState,
};
use crate::matrix::CsMat;
use crate::permutation::Permutation;
use crate::rowpattern::{
    lemma_ancestor_comes_later, lemma_row_order, lemma_seen_all, row_pattern,
};
use crate::scalar::Scalar;
use crate::sums::{
    lemma_range_sum_agree, lemma_range_sum_tail, lemma_seq_sum_is_range_sum, lemma_seq_sum_tail,
    range_sum, seq_sum,
};

verus! {

/// The entry of `L` at row `k` and column `i < k`, read from the columns
/// `cols`: the value that stands in column `i` after those of the earlier
/// rows, and `zero` where row `k` does not hold column `i`.
pub open spec fn l_entry<N>(pat: Seq<Seq<int>>, cols: Seq<Seq<N>>, zero: N, k: int, i: int) -> N {
    if in_row(pat, etree(pat), k, i) {
        cols[i][factor_col(pat, etree(pat), i, k).len() as int]
    } else {
        zero
    }
}

/// The sum of the values that the first `t` entries of a column store at
/// row `i`.
pub open spec fn upper_entry<N: Scalar>(rows: Seq<int>, vals: Seq<N>, zero: N, i: int, t: int) -> N
    decreases t,
{
    if t <= 0 {
        zero
    } else {
        let before = upper_entry(rows, vals, zero, i, t - 1);
        if rows[t - 1] == i {
            before.add_spec(vals[t - 1])
        } else {
            before
        }
    }
}

/// The term of column `j` in entry `(i, k)` of `L D Lt`.
pub open spec fn ldlt_term<N: Scalar>(
    pat: Seq<Seq<int>>,
    cols: Seq<Seq<N>>,
    diag: Seq<N>,
    zero: N,
    i: int,
    k: int,
) -> spec_fn(int) -> N {
    |j: int| l_entry(pat, cols, zero, i, j).mul_spec(diag[j].mul_spec(l_entry(pat, cols, zero, k, j)))
}

/// Entry `(i, k)` of `L D Lt`, for `i <= k`, where `L` has ones on its
/// diagonal.
pub open spec fn ldlt_entry<N: Scalar>(
    pat: Seq<Seq<int>>,
    cols: Seq<Seq<N>>,
    diag: Seq<N>,
    zero: N,
    i: int,
    k: int,
) -> N {
    let last = if i == k {
        diag[k]
    } else {
        diag[i].mul_spec(l_entry(pat, cols, zero, k, i))
    };
    last.add_spec(range_sum(ldlt_term(pat, cols, diag, zero, i, k), i, zero))
}

/// The state of row `k` after the first `t` nodes of the row.
pub open spec fn row_state<N: Scalar>(
    pat: Seq<Seq<int>>,
    vals: Seq<Seq<N>>,
    zero: N,
    k: int,
    t: int,
) -> RowState<N> {
    let before = factor_upto(pat, vals, zero, k as nat);
    eliminate(
        pat,
        before.diag,
        zero,
        k,
        row_pattern(pat, k),
        row_start(pat, vals, zero, k, before),
        t,
    )
}

/// Where `j` stands in `order`.
pub open spec fn position(order: Seq<int>, j: int) -> int {
    choose|s: int| 0 <= s < order.len() && order[s] == j
}

/// The value that the accumulator holds for node `j` when the node is
/// eliminated from row `k`, and `zero` for a node that the row does not hold.
pub open spec fn taken<N: Scalar>(
    pat: Seq<Seq<int>>,
    vals: Seq<Seq<N>>,
    zero: N,
    k: int,
    j: int,
) -> N {
    let order = row_pattern(pat, k);
    if order.contains(j) {
        row_state(pat, vals, zero, k, position(order, j)).y[j]
    } else {
        zero
    }
}

/// What the elimination of node `j` from row `k` subtracts at row `x`.
pub open spec fn row_term<N: Scalar>(
    pat: Seq<Seq<int>>,
    vals: Seq<Seq<N>>,
    zero: N,
    k: int,
    x: int,
) -> spec_fn(int) -> N {
    |j: int|
        l_entry(pat, factor_upto(pat, vals, zero, k as nat).cols, zero, x, j).mul_spec(
            taken(pat, vals, zero, k, j),
        )
}

/// What the elimination of node `j` from row `k` subtracts from the pivot.
pub open spec fn pivot_term<N: Scalar>(
    pat: Seq<Seq<int>>,
    vals: Seq<Seq<N>>,
    zero: N,
    k: int,
) -> spec_fn(int) -> N {
    |j: int|
        taken(pat, vals, zero, k, j).div_spec(factor_upto(pat, vals, zero, k as nat).diag[j]).mul_spec(
            taken(pat, vals, zero, k, j),
        )
}

// ----------------------------------------------------------------------
// What one step does
// ----------------------------------------------------------------------

/// Added to a cleared accumulator, a column leaves at each row the sum of what
/// it stores there.
pub proof fn lemma_scatter_is_upper_entry<N: Scalar>(
    rows: Seq<int>,
    vals: Seq<N>,
    zero: N,
    k: int,
    y: Seq<N>,
    t: int,
    x: int,
)
    requires
        0 <= x <= k < y.len(),
        y[x] == zero,
    ensures
        scatter(rows, vals, k, y, t)[x] == upper_entry(rows, vals, zero, x, t),
    decreases t,
{
    if t > 0 {
        lemma_scatter_is_upper_entry(rows, vals, zero, k, y, t - 1, x);
        lemma_scatter_len(rows, vals, k, y, t - 1);
    }
}

/// Subtracting a column of distinct rows changes the accumulator at row
/// `rows[a]` by the value `vals[a]` times `yi`.
pub proof fn lemma_apply_col_at<N: Scalar>(
    rows: Seq<int>,
    vals: Seq<N>,
    yi: N,
    y: Seq<N>,
    m: int,
    a: int,
)
    requires
        0 <= a < m <= rows.len(),
        forall|b: int, c: int| 0 <= b < c < rows.len() ==> rows[b] < rows[c],
        forall|b: int| 0 <= b < rows.len() ==> 0 <= #[trigger] rows[b] < y.len(),
    ensures
        apply_col(rows, vals, yi, y, m)[rows[a]] == y[rows[a]].sub_spec(vals[a].mul_spec(yi)),
    decreases m,
{
    lemma_apply_col_len(rows, vals, yi, y, m - 1);
    if a < m - 1 {
        lemma_apply_col_at(rows, vals, yi, y, m - 1, a);
        assert(rows[a] < rows[m - 1]);
    } else {
        if apply_col(rows, vals, yi, y, m - 1)[rows[a]] != y[rows[a]] {
            lemma_apply_col_touches(rows, vals, yi, y, m - 1, rows[a]);
            let b = choose|b: int| 0 <= b < m - 1 && #[trigger] rows[b] == rows[a];
            assert(rows[b] < rows[a]);
        }
    }
}

/// The rows of a column of the factor increase, and lie in `0..upto`.
pub proof fn lemma_factor_col_increases(pat: Seq<Seq<int>>, parent: Seq<int>, i: int, upto: int)
    ensures
        forall|b: int, c: int|
            0 <= b < c < factor_col(pat, parent, i, upto).len() ==> factor_col(
                pat,
                parent,
                i,
                upto,
            )[b] < factor_col(pat, parent, i, upto)[c],
    decreases upto,
{
    if upto > 0 {
        lemma_factor_col_increases(pat, parent, i, upto - 1);
        lemma_factor_col(pat, parent, i, upto - 1);
    }
}

/// Until a node is eliminated its column is as it was at the start of the
/// row.
pub proof fn lemma_eliminate_col_untouched<N: Scalar>(
    pat: Seq<Seq<int>>,
    diag: Seq<N>,
    zero: N,
    k: int,
    order: Seq<int>,
    start: RowState<N>,
    t: int,
    j: int,
)
    requires
        0 <= t <= order.len(),
        0 <= j < start.cols.len(),
        forall|s: int| 0 <= s < t ==> #[trigger] order[s] != j,
        forall|s: int| 0 <= s < order.len() ==> 0 <= #[trigger] order[s] < start.cols.len(),
    ensures
        eliminate(pat, diag, zero, k, order, start, t).cols.len() == start.cols.len(),
        eliminate(pat, diag, zero, k, order, start, t).cols[j] == start.cols[j],
    decreases t,
{
    if t > 0 {
        lemma_eliminate_col_untouched(pat, diag, zero, k, order, start, t - 1, j);
        assert(order[t - 1] != j);
    }
}

/// Once node `order[s]` is eliminated its column has one value more: what
/// the accumulator held for the node, divided by the pivot of the node.
pub proof fn lemma_eliminate_col_pushed<N: Scalar>(
    pat: Seq<Seq<int>>,
    diag: Seq<N>,
    zero: N,
    k: int,
    order: Seq<int>,
    start: RowState<N>,
    t: int,
    s: int,
)
    requires
        0 <= s < t <= order.len(),
        order.no_duplicates(),
        forall|a: int| 0 <= a < order.len() ==> 0 <= #[trigger] order[a] < start.cols.len(),
    ensures
        eliminate(pat, diag, zero, k, order, start, t).cols[order[s]] == start.cols[order[s]].push(
            eliminate(pat, diag, zero, k, order, start, s).y[order[s]].div_spec(diag[order[s]]),
        ),
    decreases t,
{
    let j = order[s];
    if s == t - 1 {
        assert forall|a: int| 0 <= a < s implies #[trigger] order[a] != j by {}
        lemma_eliminate_col_untouched(pat, diag, zero, k, order, start, s, j);
    } else {
        lemma_eliminate_col_pushed(pat, diag, zero, k, order, start, t - 1, s);
        assert forall|a: int| 0 <= a < t - 1 implies 0 <= #[trigger] order[a] < start.cols.len() by {}
        lemma_eliminate_cols_len(pat, diag, zero, k, order, start, t - 1);
        assert(order[t - 1] != j);
    }
}

/// Eliminating nodes keeps the number of columns.
pub proof fn lemma_eliminate_cols_len<N: Scalar>(
    pat: Seq<Seq<int>>,
    diag: Seq<N>,
    zero: N,
    k: int,
    order: Seq<int>,
    start: RowState<N>,
    t: int,
)
    requires
        0 <= t <= order.len(),
        forall|a: int| 0 <= a < order.len() ==> 0 <= #[trigger] order[a] < start.cols.len(),
    ensures
        eliminate(pat, diag, zero, k, order, start, t).cols.len() == start.cols.len(),
    decreases t,
{
    if t > 0 {
        lemma_eliminate_cols_len(pat, diag, zero, k, order, start, t - 1);
    }
}

// ----------------------------------------------------------------------
// What stays as it is
// ----------------------------------------------------------------------

/// The nodes of a row are columns of the matrix.
pub proof fn lemma_row_pattern_range(pat: Seq<Seq<int>>, k: int)
    requires
        pattern_wf(pat),
        0 <= k < pat.len(),
    ensures
        row_pattern(pat, k).no_duplicates(),
        forall|a: int|
            0 <= a < row_pattern(pat, k).len() ==> 0 <= #[trigger] row_pattern(pat, k)[a] < k,
        forall|j: int|
            row_pattern(pat, k).contains(j) <==> in_row(pat, etree(pat), k, j),
{
    let order = row_pattern(pat, k);
    lemma_row_order(pat, k, pat[k].len() as int);
    assert forall|a: int| 0 <= a < order.len() implies 0 <= #[trigger] order[a] < k by {
        assert(order.contains(order[a]));
    }
    assert forall|j: int| order.contains(j) <==> in_row(pat, etree(pat), k, j) by {
        lemma_seen_all(pat, etree(pat), k, j);
    }
}

/// A node stands in the order of its row at one position only.
pub proof fn lemma_position(pat: Seq<Seq<int>>, k: int, s: int)
    requires
        pattern_wf(pat),
        0 <= k < pat.len(),
        0 <= s < row_pattern(pat, k).len(),
    ensures
        row_pattern(pat, k).contains(row_pattern(pat, k)[s]),
        position(row_pattern(pat, k), row_pattern(pat, k)[s]) == s,
{
    let order = row_pattern(pat, k);
    lemma_row_pattern_range(pat, k);
    assert(order.contains(order[s]));
    let q = position(order, order[s]);
    assert(0 <= q < order.len() && order[q] == order[s]);
}

/// The state in which a row begins has the lengths it should have.
pub proof fn lemma_row_start_shape<N: Scalar>(
    pat: Seq<Seq<int>>,
    vals: Seq<Seq<N>>,
    zero: N,
    k: int,
)
    requires
        pattern_wf(pat),
        0 <= k < pat.len(),
    ensures
        row_shape(pat, k, 0, row_state(pat, vals, zero, k, 0)),
        row_state(pat, vals, zero, k, 0).cols == factor_upto(pat, vals, zero, k as nat).cols,
{
    let before = factor_upto(pat, vals, zero, k as nat);
    let order = row_pattern(pat, k);
    lemma_factor_shape(pat, vals, zero, k as nat);
    lemma_scatter_len(pat[k], vals[k], k, before.y.push(zero), pat[k].len() as int);
    assert(order.subrange(0, 0) =~= Seq::<int>::empty());
}

/// The state after the last node of row `k` is the factor after row `k`.
pub proof fn lemma_row_end<N: Scalar>(pat: Seq<Seq<int>>, vals: Seq<Seq<N>>, zero: N, k: int)
    requires
        0 <= k,
    ensures
        ({
            let st = row_state(pat, vals, zero, k, row_pattern(pat, k).len() as int);
            let after = factor_upto(pat, vals, zero, (k + 1) as nat);
            &&& after.cols == st.cols
            &&& after.y == st.y
            &&& after.diag == factor_upto(pat, vals, zero, k as nat).diag.push(st.pivot)
        }),
{
    let before = factor_upto(pat, vals, zero, k as nat);
    assert(factor_upto(pat, vals, zero, (k + 1) as nat) == factor_step(pat, vals, zero, k, before));
}

/// A later row leaves the values of a column where they are.
pub proof fn lemma_cols_prefix<N: Scalar>(
    pat: Seq<Seq<int>>,
    vals: Seq<Seq<N>>,
    zero: N,
    m: int,
    m2: int,
    j: int,
    a: int,
)
    requires
        pattern_wf(pat),
        0 <= m <= m2 <= pat.len(),
        0 <= j < pat.len(),
        0 <= a < factor_upto(pat, vals, zero, m as nat).cols[j].len(),
    ensures
        a < factor_upto(pat, vals, zero, m2 as nat).cols[j].len(),
        factor_upto(pat, vals, zero, m2 as nat).cols[j][a] == factor_upto(
            pat,
            vals,
            zero,
            m as nat,
        ).cols[j][a],
    decreases m2 - m,
{
    if m < m2 {
        let k = m2 - 1;
        let before = factor_upto(pat, vals, zero, k as nat);
        let order = row_pattern(pat, k);
        let start = row_state(pat, vals, zero, k, 0);
        lemma_cols_prefix(pat, vals, zero, m, k, j, a);
        lemma_row_start_shape(pat, vals, zero, k);
        lemma_row_end(pat, vals, zero, k);
        lemma_row_pattern_range(pat, k);
        if order.contains(j) {
            let s = position(order, j);
            lemma_eliminate_col_pushed(
                pat,
                before.diag,
                zero,
                k,
                order,
                start,
                order.len() as int,
                s,
            );
        } else {
            assert forall|s: int| 0 <= s < order.len() implies #[trigger] order[s] != j by {
                assert(order.contains(order[s]));
            }
            lemma_eliminate_col_untouched(
                pat,
                before.diag,
                zero,
                k,
                order,
                start,
                order.len() as int,
                j,
            );
        }
    }
}

/// A later row leaves the pivots where they are.
pub proof fn lemma_diag_prefix<N: Scalar>(
    pat: Seq<Seq<int>>,
    vals: Seq<Seq<N>>,
    zero: N,
    m: int,
    m2: int,
    j: int,
)
    requires
        pattern_wf(pat),
        0 <= j < m <= m2 <= pat.len(),
    ensures
        factor_upto(pat, vals, zero, m2 as nat).diag[j] == factor_upto(
            pat,
            vals,
            zero,
            m as nat,
        ).diag[j],
    decreases m2 - m,
{
    if m < m2 {
        lemma_diag_prefix(pat, vals, zero, m, m2 - 1, j);
        lemma_row_end(pat, vals, zero, m2 - 1);
        lemma_factor_shape(pat, vals, zero, (m2 - 1) as nat);
    }
}

/// The entry of `L` at row `k` reads the same from the factor after any row
/// from `k` on.
pub proof fn lemma_l_entry_stable<N: Scalar>(
    pat: Seq<Seq<int>>,
    vals: Seq<Seq<N>>,
    zero: N,
    m: int,
    m2: int,
    k: int,
    i: int,
)
    requires
        pattern_wf(pat),
        0 <= k < m <= m2 <= pat.len(),
    ensures
        l_entry(pat, factor_upto(pat, vals, zero, m2 as nat).cols, zero, k, i) == l_entry(
            pat,
            factor_upto(pat, vals, zero, m as nat).cols,
            zero,
            k,
            i,
        ),
{
    let e = etree(pat);
    if in_row(pat, e, k, i) {
        lemma_factor_shape(pat, vals, zero, m as nat);
        lemma_factor_col_slot(pat, e, i, k, m);
        lemma_cols_prefix(pat, vals, zero, m, m2, i, factor_col(pat, e, i, k).len() as int);
    }
}

/// No pivot before row `k` is `zero`, if none of them came out equal to
/// `zero`.
pub proof fn lemma_pivot_nonzero<N: Scalar>(
    pat: Seq<Seq<int>>,
    vals: Seq<Seq<N>>,
    zero: N,
    m: int,
    j: int,
)
    requires
        exact(zero),
        pattern_wf(pat),
        0 <= j < m <= pat.len(),
        !singular_at(pat, vals, zero, j),
    ensures
        factor_upto(pat, vals, zero, m as nat).diag[j] != zero,
{
    lemma_diag_prefix(pat, vals, zero, j + 1, m, j);
    lemma_eq(zero, factor_upto(pat, vals, zero, (j + 1) as nat).diag[j], zero);
}

// ----------------------------------------------------------------------
// What a row adds up to
// ----------------------------------------------------------------------

/// While node `x` waits in row `k`, what the accumulator holds for it and
/// what was subtracted there make up what the row began with.
pub proof fn lemma_row_balance<N: Scalar>(
    pat: Seq<Seq<int>>,
    vals: Seq<Seq<N>>,
    zero: N,
    k: int,
    t: int,
    x: int,
)
    requires
        exact(zero),
        pattern_wf(pat),
        0 <= k < pat.len(),
        0 <= t <= row_pattern(pat, k).len(),
        0 <= x < k,
        forall|s: int| 0 <= s < t ==> #[trigger] row_pattern(pat, k)[s] != x,
    ensures
        row_state(pat, vals, zero, k, t).y[x].add_spec(
            seq_sum(row_term(pat, vals, zero, k, x), row_pattern(pat, k).take(t), zero),
        ) == row_state(pat, vals, zero, k, 0).y[x],
    decreases t,
{
    let e = etree(pat);
    let before = factor_upto(pat, vals, zero, k as nat);
    let order = row_pattern(pat, k);
    let start = row_state(pat, vals, zero, k, 0);
    let g = row_term(pat, vals, zero, k, x);
    if t > 0 {
        let st = row_state(pat, vals, zero, k, t - 1);
        let st2 = row_state(pat, vals, zero, k, t);
        let i = order[t - 1];
        let yi = st.y[i];
        let rows = factor_col(pat, e, i, k);
        let y1 = st.y.update(i, zero);
        let sum = seq_sum(g, order.take(t - 1), zero);
        lemma_row_balance(pat, vals, zero, k, t - 1, x);
        lemma_row_pattern_range(pat, k);
        lemma_position(pat, k, t - 1);
        lemma_row_start_shape(pat, vals, zero, k);
        lemma_eliminate_shape(pat, before.diag, zero, k, start, t - 1);
        assert forall|s: int| 0 <= s < t - 1 implies #[trigger] order[s] != i by {}
        lemma_eliminate_col_untouched(pat, before.diag, zero, k, order, start, t - 1, i);
        assert(!order.subrange(0, t - 1).contains(i)) by {
            let done = order.subrange(0, t - 1);
            if done.contains(i) {
                let a = choose|a: int| 0 <= a < done.len() && done[a] == i;
                assert(order[a] == i);
            }
        }
        assert(st.cols[i] == before.cols[i]);
        assert(st.cols[i].len() == rows.len());
        assert(st2 == eliminate_node(pat, before.diag, zero, k, i, st));
        assert(st2.y == apply_col(rows, before.cols[i], yi, y1, rows.len() as int));
        assert(taken(pat, vals, zero, k, i) == yi);
        assert(order.take(t).drop_last() =~= order.take(t - 1));
        assert(order.take(t).last() == i);
        assert(seq_sum(g, order.take(t), zero) == sum.add_spec(g(i)));
        lemma_factor_col(pat, e, i, k);
        lemma_factor_col_increases(pat, e, i, k);
        if in_row(pat, e, x, i) {
            let a = factor_col(pat, e, i, x).len() as int;
            lemma_factor_col_slot(pat, e, i, x, k);
            lemma_apply_col_at(rows, before.cols[i], yi, y1, rows.len() as int, a);
            lemma_cancel(zero, st.y[x], sum, before.cols[i][a].mul_spec(yi));
        } else {
            lemma_mul_zero(zero, yi);
            lemma_add_zero(zero, sum);
            if st2.y[x] != y1[x] {
                lemma_apply_col_touches(rows, before.cols[i], yi, y1, rows.len() as int, x);
            }
        }
    } else {
        assert(order.take(0) =~= Seq::<int>::empty());
        lemma_add_zero(zero, start.y[x]);
    }
}

/// The pivot of row `k` as far as it is known and what was subtracted from it
/// make up what the row began with.
pub proof fn lemma_pivot_balance<N: Scalar>(
    pat: Seq<Seq<int>>,
    vals: Seq<Seq<N>>,
    zero: N,
    k: int,
    t: int,
)
    requires
        exact(zero),
        pattern_wf(pat),
        0 <= k < pat.len(),
        0 <= t <= row_pattern(pat, k).len(),
    ensures
        row_state(pat, vals, zero, k, t).pivot.add_spec(
            seq_sum(pivot_term(pat, vals, zero, k), row_pattern(pat, k).take(t), zero),
        ) == row_state(pat, vals, zero, k, 0).pivot,
    decreases t,
{
    let before = factor_upto(pat, vals, zero, k as nat);
    let order = row_pattern(pat, k);
    let start = row_state(pat, vals, zero, k, 0);
    let h = pivot_term(pat, vals, zero, k);
    if t > 0 {
        let st = row_state(pat, vals, zero, k, t - 1);
        let st2 = row_state(pat, vals, zero, k, t);
        let i = order[t - 1];
        let yi = st.y[i];
        let sum = seq_sum(h, order.take(t - 1), zero);
        lemma_pivot_balance(pat, vals, zero, k, t - 1);
        lemma_position(pat, k, t - 1);
        assert(st2 == eliminate_node(pat, before.diag, zero, k, i, st));
        assert(taken(pat, vals, zero, k, i) == yi);
        assert(order.take(t).drop_last() =~= order.take(t - 1));
        assert(order.take(t).last() == i);
        assert(seq_sum(h, order.take(t), zero) == sum.add_spec(h(i)));
        lemma_cancel(zero, st.pivot, sum, yi.div_spec(before.diag[i]).mul_spec(yi));
    } else {
        assert(order.take(0) =~= Seq::<int>::empty());
        lemma_add_zero(zero, start.pivot);
    }
}

/// What a row begins with at `x` is what column `k` stores at row `x`.
pub proof fn lemma_row_begins<N: Scalar>(
    pat: Seq<Seq<int>>,
    vals: Seq<Seq<N>>,
    zero: N,
    k: int,
    x: int,
)
    requires
        pattern_wf(pat),
        0 <= x <= k < pat.len(),
    ensures
        x < k ==> row_state(pat, vals, zero, k, 0).y[x] == upper_entry(
            pat[k],
            vals[k],
            zero,
            x,
            pat[k].len() as int,
        ),
        x == k ==> row_state(pat, vals, zero, k, 0).pivot == upper_entry(
            pat[k],
            vals[k],
            zero,
            x,
            pat[k].len() as int,
        ),
{
    let before = factor_upto(pat, vals, zero, k as nat);
    lemma_accumulator_cleared(pat, vals, zero, k as nat);
    lemma_scatter_len(pat[k], vals[k], k, before.y.push(zero), pat[k].len() as int);
    lemma_scatter_is_upper_entry(
        pat[k],
        vals[k],
        zero,
        k,
        before.y.push(zero),
        pat[k].len() as int,
        x,
    );
}

/// What was taken for node `x` of row `k`, and the sum over the columns
/// before `x` of what their elimination subtracted at `x`, make up what
/// column `k` stores at row `x`.
pub proof fn lemma_row_total<N: Scalar>(
    pat: Seq<Seq<int>>,
    vals: Seq<Seq<N>>,
    zero: N,
    k: int,
    x: int,
)
    requires
        exact(zero),
        pattern_wf(pat),
        0 <= x < k < pat.len(),
    ensures
        taken(pat, vals, zero, k, x).add_spec(
            range_sum(row_term(pat, vals, zero, k, x), x, zero),
        ) == upper_entry(pat[k], vals[k], zero, x, pat[k].len() as int),
{
    let e = etree(pat);
    let before = factor_upto(pat, vals, zero, k as nat);
    let order = row_pattern(pat, k);
    let len = order.len() as int;
    let g = row_term(pat, vals, zero, k, x);
    lemma_row_begins(pat, vals, zero, k, x);
    lemma_row_pattern_range(pat, k);
    assert(order.take(len) =~= order);
    if order.contains(x) {
        let s0 = position(order, x);
        assert forall|s: int| 0 <= s < s0 implies #[trigger] order[s] != x by {}
        lemma_row_balance(pat, vals, zero, k, s0, x);
        assert forall|a: int| s0 <= a < order.len() implies g(#[trigger] order[a]) == zero by {
            if in_row(pat, e, x, order[a]) {
                lemma_row_is_ancestor(pat, x, order[a]);
                lemma_ancestor_comes_later(pat, k, a, x);
                let b = choose|b: int| a < b < order.len() && order[b] == x;
                assert(b == s0);
            }
            lemma_mul_zero(zero, taken(pat, vals, zero, k, order[a]));
        }
        lemma_seq_sum_tail(g, order, s0, zero);
    } else {
        assert forall|s: int| 0 <= s < len implies #[trigger] order[s] != x by {
            assert(order.contains(order[s]));
        }
        lemma_row_balance(pat, vals, zero, k, len, x);
        lemma_row_end(pat, vals, zero, k);
        lemma_accumulator_cleared(pat, vals, zero, (k + 1) as nat);
    }
    assert(taken(pat, vals, zero, k, x).add_spec(seq_sum(g, order, zero)) == upper_entry(
        pat[k],
        vals[k],
        zero,
        x,
        pat[k].len() as int,
    ));
    assert forall|j: int| 0 <= j < k && !order.contains(j) implies #[trigger] g(j) == zero by {
        lemma_mul_zero(zero, l_entry(pat, before.cols, zero, x, j));
    }
    lemma_seq_sum_is_range_sum(g, order, k, zero);
    assert forall|j: int| x <= j < k implies #[trigger] g(j) == zero by {
        lemma_mul_zero(zero, taken(pat, vals, zero, k, j));
    }
    lemma_range_sum_tail(g, x, k, zero);
}

/// The pivot of row `k`, and the sum over the columns before `k` of what
/// their elimination subtracted from it, make up what column `k` stores on
/// the diagonal.
pub proof fn lemma_pivot_total<N: Scalar>(
    pat: Seq<Seq<int>>,
    vals: Seq<Seq<N>>,
    zero: N,
    k: int,
)
    requires
        exact(zero),
        pattern_wf(pat),
        0 <= k < pat.len(),
    ensures
        factor_upto(pat, vals, zero, (k + 1) as nat).diag[k].add_spec(
            range_sum(pivot_term(pat, vals, zero, k), k, zero),
        ) == upper_entry(pat[k], vals[k], zero, k, pat[k].len() as int),
{
    let before = factor_upto(pat, vals, zero, k as nat);
    let order = row_pattern(pat, k);
    let len = order.len() as int;
    let h = pivot_term(pat, vals, zero, k);
    lemma_row_begins(pat, vals, zero, k, k);
    lemma_row_pattern_range(pat, k);
    lemma_pivot_balance(pat, vals, zero, k, len);
    lemma_row_end(pat, vals, zero, k);
    lemma_factor_shape(pat, vals, zero, k as nat);
    assert(order.take(len) =~= order);
    assert forall|j: int| 0 <= j < k && !order.contains(j) implies #[trigger] h(j) == zero by {
        lemma_mul_zero(zero, taken(pat, vals, zero, k, j).div_spec(before.diag[j]));
    }
    lemma_seq_sum_is_range_sum(h, order, k, zero);
}

// ----------------------------------------------------------------------
// The factor reproduces the matrix
// ----------------------------------------------------------------------

/// The entry that row `k` adds to column `j` is what was taken for `j`,
/// divided by the pivot of `j`.
pub proof fn lemma_new_entry<N: Scalar>(
    pat: Seq<Seq<int>>,
    vals: Seq<Seq<N>>,
    zero: N,
    k: int,
    j: int,
)
    requires
        pattern_wf(pat),
        0 <= k < pat.len(),
        in_row(pat, etree(pat), k, j),
    ensures
        l_entry(pat, factor_upto(pat, vals, zero, (k + 1) as nat).cols, zero, k, j) == taken(
            pat,
            vals,
            zero,
            k,
            j,
        ).div_spec(factor_upto(pat, vals, zero, k as nat).diag[j]),
{
    let before = factor_upto(pat, vals, zero, k as nat);
    let order = row_pattern(pat, k);
    let start = row_state(pat, vals, zero, k, 0);
    lemma_row_pattern_range(pat, k);
    lemma_row_start_shape(pat, vals, zero, k);
    lemma_row_end(pat, vals, zero, k);
    lemma_factor_shape(pat, vals, zero, k as nat);
    assert(order.contains(j));
    let s = position(order, j);
    lemma_eliminate_col_pushed(pat, before.diag, zero, k, order, start, order.len() as int, s);
}

/// What was taken for node `j` of row `k` is the pivot of `j` times the entry
/// of `L` at row `k` and column `j`.
pub proof fn lemma_taken_is_product<N: Scalar>(
    pat: Seq<Seq<int>>,
    vals: Seq<Seq<N>>,
    zero: N,
    k: int,
    j: int,
)
    requires
        exact(zero),
        pattern_wf(pat),
        0 <= j < k < pat.len(),
        !singular_at(pat, vals, zero, j),
    ensures
        factor_upto(pat, vals, zero, k as nat).diag[j].mul_spec(
            l_entry(pat, factor_upto(pat, vals, zero, (k + 1) as nat).cols, zero, k, j),
        ) == taken(pat, vals, zero, k, j),
{
    let before = factor_upto(pat, vals, zero, k as nat);
    lemma_row_pattern_range(pat, k);
    if in_row(pat, etree(pat), k, j) {
        lemma_new_entry(pat, vals, zero, k, j);
        lemma_pivot_nonzero(pat, vals, zero, k, j);
        lemma_mul_div(zero, taken(pat, vals, zero, k, j), before.diag[j]);
    } else {
        lemma_mul_zero(zero, before.diag[j]);
    }
}

/// In exact arithmetic, and if no pivot comes out as `zero`, the factor
/// reproduces the matrix on and above the diagonal: entry `(i, k)` of
/// `L D Lt` is the sum of what column `k` of `P A Pt` stores at row `i`.
pub proof fn lemma_reconstruction<N: Scalar>(
    pat: Seq<Seq<int>>,
    vals: Seq<Seq<N>>,
    zero: N,
    i: int,
    k: int,
)
    requires
        exact(zero),
        pattern_wf(pat),
        0 <= i <= k < pat.len(),
        forall|j: int| 0 <= j < pat.len() ==> !#[trigger] singular_at(pat, vals, zero, j),
    ensures
        ({
            let f = factor_upto(pat, vals, zero, pat.len());
            ldlt_entry(pat, f.cols, f.diag, zero, i, k) == upper_entry(
                pat[k],
                vals[k],
                zero,
                i,
                pat[k].len() as int,
            )
        }),
{
    let n = pat.len() as int;
    let f = factor_upto(pat, vals, zero, pat.len());
    let before = factor_upto(pat, vals, zero, k as nat);
    let after = factor_upto(pat, vals, zero, (k + 1) as nat);
    let term = ldlt_term(pat, f.cols, f.diag, zero, i, k);
    lemma_row_pattern_range(pat, k);
    assert forall|j: int| 0 <= j < k implies f.diag[j].mul_spec(l_entry(pat, f.cols, zero, k, j))
        == taken(pat, vals, zero, k, j) && l_entry(pat, f.cols, zero, k, j) == l_entry(
        pat,
        after.cols,
        zero,
        k,
        j,
    ) by {
        assert(!singular_at(pat, vals, zero, j));
        lemma_taken_is_product(pat, vals, zero, k, j);
        lemma_l_entry_stable(pat, vals, zero, k + 1, n, k, j);
        lemma_diag_prefix(pat, vals, zero, k, n, j);
    }
    if i < k {
        let g = row_term(pat, vals, zero, k, i);
        lemma_row_total(pat, vals, zero, k, i);
        assert forall|j: int| 0 <= j < i implies #[trigger] term(j) == g(j) by {
            lemma_l_entry_stable(pat, vals, zero, i + 1, n, i, j);
            lemma_l_entry_stable(pat, vals, zero, i + 1, k, i, j);
        }
        lemma_range_sum_agree(term, g, i, zero);
    } else {
        let h = pivot_term(pat, vals, zero, k);
        lemma_pivot_total(pat, vals, zero, k);
        lemma_diag_prefix(pat, vals, zero, k + 1, n, k);
        assert forall|j: int| 0 <= j < k implies #[trigger] term(j) == h(j) by {
            if in_row(pat, etree(pat), k, j) {
                lemma_new_entry(pat, vals, zero, k, j);
            } else {
                lemma_mul_zero(zero, f.diag[j].mul_spec(l_entry(pat, f.cols, zero, k, j)));
                lemma_mul_zero(zero, taken(pat, vals, zero, k, j).div_spec(before.diag[j]));
            }
        }
        lemma_range_sum_agree(term, h, k, zero);
    }
}

/// The value of an entry that may be missing: a missing entry counts as
/// `zero`.
pub open spec fn value_or<N>(entry: Option<N>, zero: N) -> N {
    match entry {
        Some(v) => v,
        None => zero,
    }
}

/// What the first `t` entries of column `k` of `P A Pt` store at row `x` is
/// the one entry among them that has this row, if there is one.
proof fn lemma_upper_entry_upto<N: Scalar>(
    mat: &CsMat<N>,
    perm: &Permutation,
    zero: N,
    x: int,
    k: int,
    t: int,
)
    requires
        exact(zero),
        mat.wf(),
        perm.wf_for(mat.dim as nat),
        0 <= x < mat.dim,
        0 <= k < mat.dim,
        0 <= t <= mat.permuted_rows(perm, k).len(),
    ensures
        ({
            let c = perm.preimage(k);
            let r = perm.preimage(x);
            let sum = upper_entry(
                mat.permuted_rows(perm, k),
                mat.permuted_vals(perm, k),
                zero,
                x,
                t,
            );
            if exists|p: int| mat.holds(r, c, p) && p < mat.col_start(c) + t {
                sum == mat.data@[choose|p: int| mat.holds(r, c, p)]
            } else {
                sum == zero
            }
        }),
    decreases t,
{
    let c = perm.preimage(k);
    let r = perm.preimage(x);
    let rows = mat.permuted_rows(perm, k);
    let vals = mat.permuted_vals(perm, k);
    perm.lemma_round_trip(mat.dim as nat, k);
    perm.lemma_round_trip(mat.dim as nat, x);
    mat.lemma_col_bounds(c);
    if t > 0 {
        let p = mat.col_start(c) + t - 1;
        let row = mat.indices@[p] as int;
        lemma_upper_entry_upto(mat, perm, zero, x, k, t - 1);
        perm.lemma_round_trip(mat.dim as nat, row);
        assert(rows[t - 1] == perm.image(row));
        assert(vals[t - 1] == mat.data@[p]);
        if rows[t - 1] == x {
            assert(row == r);
            assert(mat.holds(r, c, p));
            mat.lemma_unique_position(c, r, p);
            let q = choose|q: int| mat.holds(r, c, q);
            assert(q == p);
            if exists|q: int| mat.holds(r, c, q) && q < mat.col_start(c) + t - 1 {
                let q2 = choose|q: int| mat.holds(r, c, q) && q < mat.col_start(c) + t - 1;
                assert(q2 == p);
            }
            lemma_add_zero(zero, mat.data@[p]);
        } else {
            if exists|q: int| mat.holds(r, c, q) && q < mat.col_start(c) + t {
                let q = choose|q: int| mat.holds(r, c, q) && q < mat.col_start(c) + t;
                assert(q != p);
                assert(mat.holds(r, c, q) && q < mat.col_start(c) + t - 1);
            }
        }
    }
}

/// Row `image(i)` of column `image(j)` of `P A Pt` stores what `A` stores at
/// row `i` of column `j`.
pub proof fn lemma_upper_entry_is_stored<N: Scalar>(
    mat: &CsMat<N>,
    perm: &Permutation,
    zero: N,
    i: int,
    j: int,
)
    requires
        exact(zero),
        mat.wf(),
        perm.wf_for(mat.dim as nat),
        0 <= i < mat.dim,
        0 <= j < mat.dim,
    ensures
        upper_entry(
            mat.permuted_pattern(perm)[perm.image(j)],
            mat.permuted_values(perm)[perm.image(j)],
            zero,
            perm.image(i),
            mat.permuted_pattern(perm)[perm.image(j)].len() as int,
        ) == value_or(mat.entry(i, j), zero),
{
    let k = perm.image(j);
    let x = perm.image(i);
    perm.lemma_round_trip(mat.dim as nat, i);
    perm.lemma_round_trip(mat.dim as nat, j);
    mat.lemma_col_bounds(j);
    lemma_upper_entry_upto(mat, perm, zero, x, k, mat.permuted_rows(perm, k).len() as int);
    if exists|p: int| mat.holds(i, j, p) {
        let p = choose|p: int| mat.holds(i, j, p);
        assert(mat.holds(i, j, p) && p < mat.col_start(j) + mat.permuted_rows(perm, k).len());
    }
}

/// In exact arithmetic, and if no pivot comes out as `zero`, the factor of
/// `P A Pt` reproduces the matrix: entry `(image(i), image(j))` of `L D Lt`
/// is what `A` stores at row `i` of column `j`, and `zero` if it stores
/// nothing there. This is stated for the entries that the permutation brings
/// on or above the diagonal; a symmetric matrix has the same below.
pub proof fn lemma_factor_reproduces_matrix<N: Scalar>(
    mat: &CsMat<N>,
    perm: &Permutation,
    zero: N,
    i: int,
    j: int,
)
    requires
        exact(zero),
        mat.wf(),
        perm.wf_for(mat.dim as nat),
        0 <= i < mat.dim,
        0 <= j < mat.dim,
        perm.image(i) <= perm.image(j),
        forall|k: int|
            0 <= k < mat.dim ==> !#[trigger] singular_at(
                mat.permuted_pattern(perm),
                mat.permuted_values(perm),
                zero,
                k,
            ),
    ensures
        ({
            let pat = mat.permuted_pattern(perm);
            let f = factor_upto(pat, mat.permuted_values(perm), zero, mat.dim as nat);
            ldlt_entry(pat, f.cols, f.diag, zero, perm.image(i), perm.image(j)) == value_or(
                mat.entry(i, j),
                zero,
            )
        }),
{
    perm.lemma_round_trip(mat.dim as nat, i);
    perm.lemma_round_trip(mat.dim as nat, j);
    mat.lemma_permuted_pattern(perm);
    lemma_reconstruction(
        mat.permuted_pattern(perm),
        mat.permuted_values(perm),
        zero,
        perm.image(i),
        perm.image(j),
    );
    lemma_upper_entry_is_stored(mat, perm, zero, i, j);
}

} // verus!
