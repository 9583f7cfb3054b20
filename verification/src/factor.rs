//! What numeric factorization computes, column by column.
//!
//! The arithmetic of an element type need not be associative, so the values
//! of the factor are defined by the order of the operations: the entries of a
//! column are summed in storage order, and the nodes of a row are eliminated
//! in the order of `row_pattern`.

use vstd::prelude::*;
use vstd::std_specs::ops::{AddSpec, SubSpec, MulSpec, DivSpec};
use vstd::std_specs::cmp::PartialEqSpec;
use crate::etree::{
    col_of_slot, col_ptr, etree, factor_col, factor_nnz, leads_to, lemma_factor_col,
    lemma_row_is_ancestor, pattern_wf, reaches,
};
use crate::rowpattern::{
    lemma_ancestor_comes_later, lemma_row_order, lemma_seen_all, row_pattern, seen,
};
use crate::scalar::Scalar;

verus! {

/// The factor after some of its rows: the values below the diagonal of each
/// column in the order of their rows, the pivots, and the accumulator.
pub struct Partial<N> {
    pub cols: Seq<Seq<N>>,
    pub diag: Seq<N>,
    pub y: Seq<N>,
}

/// The state inside one row: the columns, the accumulator and the pivot of
/// the row as far as it is known.
pub struct RowState<N> {
    pub cols: Seq<Seq<N>>,
    pub y: Seq<N>,
    pub pivot: N,
}

/// The accumulator after the first `t` entries of column `k` were added to
/// it. Entries below the diagonal are left out.
pub open spec fn scatter<N: Scalar>(rows: Seq<int>, vals: Seq<N>, k: int, y: Seq<N>, t: int) -> Seq<
    N,
>
    decreases t,
{
    if t <= 0 {
        y
    } else {
        let before = scatter(rows, vals, k, y, t - 1);
        let r = rows[t - 1];
        if 0 <= r <= k && r < before.len() {
            before.update(r, before[r].add_spec(vals[t - 1]))
        } else {
            before
        }
    }
}

/// The accumulator after the first `m` entries of a factor column, with rows
/// `rows` and values `vals`, were multiplied by `yi` and subtracted.
pub open spec fn apply_col<N: Scalar>(rows: Seq<int>, vals: Seq<N>, yi: N, y: Seq<N>, m: int) -> Seq<
    N,
>
    decreases m,
{
    if m <= 0 {
        y
    } else {
        let before = apply_col(rows, vals, yi, y, m - 1);
        let r = rows[m - 1];
        if 0 <= r < before.len() {
            before.update(r, before[r].sub_spec(vals[m - 1].mul_spec(yi)))
        } else {
            before
        }
    }
}

/// Eliminates node `i` from row `k`: its accumulated value is taken and
/// cleared, column `i` of the factor is subtracted from the accumulator, and
/// the new entry of column `i` is the value divided by the pivot of `i`.
pub open spec fn eliminate_node<N: Scalar>(
    pat: Seq<Seq<int>>,
    diag: Seq<N>,
    zero: N,
    k: int,
    i: int,
    st: RowState<N>,
) -> RowState<N> {
    let yi = st.y[i];
    let rows = factor_col(pat, etree(pat), i, k);
    let y = apply_col(rows, st.cols[i], yi, st.y.update(i, zero), st.cols[i].len() as int);
    let l_ki = yi.div_spec(diag[i]);
    RowState {
        cols: st.cols.update(i, st.cols[i].push(l_ki)),
        y,
        pivot: st.pivot.sub_spec(l_ki.mul_spec(yi)),
    }
}

/// The state of row `k` after the first `t` nodes of `order`.
pub open spec fn eliminate<N: Scalar>(
    pat: Seq<Seq<int>>,
    diag: Seq<N>,
    zero: N,
    k: int,
    order: Seq<int>,
    start: RowState<N>,
    t: int,
) -> RowState<N>
    decreases t,
{
    if t <= 0 {
        start
    } else {
        eliminate_node(pat, diag, zero, k, order[t - 1], eliminate(pat, diag, zero, k, order, start, t - 1))
    }
}

/// The accumulator of row `k` once column `k` has been added to it.
pub open spec fn loaded<N: Scalar>(
    pat: Seq<Seq<int>>,
    vals: Seq<Seq<N>>,
    zero: N,
    k: int,
    before: Partial<N>,
) -> Seq<N> {
    scatter(pat[k], vals[k], k, before.y.push(zero), pat[k].len() as int)
}

/// The state in which the elimination of row `k` begins.
pub open spec fn row_start<N: Scalar>(
    pat: Seq<Seq<int>>,
    vals: Seq<Seq<N>>,
    zero: N,
    k: int,
    before: Partial<N>,
) -> RowState<N> {
    let y = loaded(pat, vals, zero, k, before);
    RowState { cols: before.cols, y: y.update(k, zero), pivot: y[k] }
}

/// The factor after row `k`, given the factor before it.
pub open spec fn factor_step<N: Scalar>(
    pat: Seq<Seq<int>>,
    vals: Seq<Seq<N>>,
    zero: N,
    k: int,
    before: Partial<N>,
) -> Partial<N> {
    let order = row_pattern(pat, k);
    let st = eliminate(
        pat,
        before.diag,
        zero,
        k,
        order,
        row_start(pat, vals, zero, k, before),
        order.len() as int,
    );
    Partial { cols: st.cols, diag: before.diag.push(st.pivot), y: st.y }
}

/// The factor after its first `k` rows.
pub open spec fn factor_upto<N: Scalar>(
    pat: Seq<Seq<int>>,
    vals: Seq<Seq<N>>,
    zero: N,
    k: nat,
) -> Partial<N>
    decreases k,
{
    if k == 0 {
        Partial {
            cols: Seq::new(pat.len(), |i: int| Seq::empty()),
            diag: Seq::empty(),
            y: Seq::empty(),
        }
    } else {
        factor_step(pat, vals, zero, k - 1, factor_upto(pat, vals, zero, (k - 1) as nat))
    }
}

/// The values of the factor's columns written one after the other.
pub open spec fn factor_vals<N>(pat: Seq<Seq<int>>, cols: Seq<Seq<N>>) -> Seq<N> {
    Seq::new(
        factor_nnz(pat) as nat,
        |p: int|
            {
                let i = col_of_slot(pat, p, pat.len() as int);
                cols[i][p - col_ptr(pat, i)]
            },
    )
}

/// Subtracting a column leaves the length of the accumulator as it was.
pub proof fn lemma_apply_col_len<N: Scalar>(
    rows: Seq<int>,
    vals: Seq<N>,
    yi: N,
    y: Seq<N>,
    m: int,
)
    ensures
        apply_col(rows, vals, yi, y, m).len() == y.len(),
    decreases m,
{
    if m > 0 {
        lemma_apply_col_len(rows, vals, yi, y, m - 1);
    }
}

/// Adding a column leaves the length of the accumulator as it was.
pub proof fn lemma_scatter_len<N: Scalar>(rows: Seq<int>, vals: Seq<N>, k: int, y: Seq<N>, t: int)
    ensures
        scatter(rows, vals, k, y, t).len() == y.len(),
    decreases t,
{
    if t > 0 {
        lemma_scatter_len(rows, vals, k, y, t - 1);
    }
}

/// Whether the pivot of row `k` comes out equal to `zero`.
pub open spec fn singular_at<N: Scalar>(
    pat: Seq<Seq<int>>,
    vals: Seq<Seq<N>>,
    zero: N,
    k: int,
) -> bool {
    factor_upto(pat, vals, zero, (k + 1) as nat).diag[k].eq_spec(&zero)
}

// ----------------------------------------------------------------------
// Shape
// ----------------------------------------------------------------------

/// Whether a state inside row `k`, after the first `t` nodes of the row, has
/// the lengths it should have: every column as many values as it has rows
/// below `k`, and one more if its node has been eliminated.
pub open spec fn row_shape<N>(pat: Seq<Seq<int>>, k: int, t: int, st: RowState<N>) -> bool {
    &&& st.cols.len() == pat.len()
    &&& st.y.len() == k + 1
    &&& forall|i: int|
        0 <= i < pat.len() ==> (#[trigger] st.cols[i]).len() == factor_col(
            pat,
            etree(pat),
            i,
            k,
        ).len() + (if row_pattern(pat, k).subrange(0, t).contains(i) {
            1int
        } else {
            0int
        })
}

/// Eliminating nodes keeps the lengths right.
pub proof fn lemma_eliminate_shape<N: Scalar>(
    pat: Seq<Seq<int>>,
    diag: Seq<N>,
    zero: N,
    k: int,
    start: RowState<N>,
    t: int,
)
    requires
        pattern_wf(pat),
        0 <= k < pat.len(),
        0 <= t <= row_pattern(pat, k).len(),
        row_shape(pat, k, 0, start),
    ensures
        row_shape(pat, k, t, eliminate(pat, diag, zero, k, row_pattern(pat, k), start, t)),
    decreases t,
{
    let order = row_pattern(pat, k);
    if t > 0 {
        let st = eliminate(pat, diag, zero, k, order, start, t - 1);
        let st2 = eliminate(pat, diag, zero, k, order, start, t);
        let i = order[t - 1];
        let done = order.subrange(0, t - 1);
        let done2 = order.subrange(0, t);
        lemma_eliminate_shape(pat, diag, zero, k, start, t - 1);
        lemma_row_order(pat, k, pat[k].len() as int);
        assert(order.contains(i));
        assert(st2 == eliminate_node(pat, diag, zero, k, i, st));
        lemma_apply_col_len(
            factor_col(pat, etree(pat), i, k),
            st.cols[i],
            st.y[i],
            st.y.update(i, zero),
            st.cols[i].len() as int,
        );
        assert(done2 =~= done.push(i));
        assert forall|j: int| 0 <= j < pat.len() implies (#[trigger] st2.cols[j]).len()
            == factor_col(pat, etree(pat), j, k).len() + (if done2.contains(j) {
            1int
        } else {
            0int
        }) by {
            assert(st.cols[j].len() == factor_col(pat, etree(pat), j, k).len() + (if done.contains(
                j,
            ) {
                1int
            } else {
                0int
            }));
            if done2.contains(j) {
                let a = choose|a: int| 0 <= a < done2.len() && done2[a] == j;
                if a < t - 1 {
                    assert(done[a] == j);
                }
            }
            if done.contains(j) {
                let a = choose|a: int| 0 <= a < done.len() && done[a] == j;
                assert(done2[a] == j);
                assert(order[a] == j);
            }
            if j == i {
                assert(done2[t - 1] == j);
            }
        }
    } else {
        assert(order.subrange(0, 0) =~= Seq::<int>::empty());
    }
}

/// The factor after `k` rows has `k` pivots, an accumulator of length `k`,
/// and in every column one value for each of its rows below `k`.
pub proof fn lemma_factor_shape<N: Scalar>(
    pat: Seq<Seq<int>>,
    vals: Seq<Seq<N>>,
    zero: N,
    k: nat,
)
    requires
        pattern_wf(pat),
        k <= pat.len(),
    ensures
        factor_upto(pat, vals, zero, k).cols.len() == pat.len(),
        factor_upto(pat, vals, zero, k).diag.len() == k,
        factor_upto(pat, vals, zero, k).y.len() == k,
        forall|i: int|
            0 <= i < pat.len() ==> (#[trigger] factor_upto(pat, vals, zero, k).cols[i]).len()
                == factor_col(pat, etree(pat), i, k as int).len(),
    decreases k,
{
    let e = etree(pat);
    if k > 0 {
        let kk = (k - 1) as int;
        let before = factor_upto(pat, vals, zero, (k - 1) as nat);
        let after = factor_upto(pat, vals, zero, k);
        let order = row_pattern(pat, kk);
        let start = row_start(pat, vals, zero, kk, before);
        lemma_factor_shape(pat, vals, zero, (k - 1) as nat);
        lemma_scatter_len(pat[kk], vals[kk], kk, before.y.push(zero), pat[kk].len() as int);
        assert(order.subrange(0, 0) =~= Seq::<int>::empty());
        assert(row_shape(pat, kk, 0, start));
        lemma_eliminate_shape(pat, before.diag, zero, kk, start, order.len() as int);
        lemma_row_order(pat, kk, pat[kk].len() as int);
        assert(order.subrange(0, order.len() as int) =~= order);
        let st = eliminate(pat, before.diag, zero, kk, order, start, order.len() as int);
        assert(after.cols == st.cols);
        assert forall|i: int| 0 <= i < pat.len() implies (#[trigger] after.cols[i]).len()
            == factor_col(pat, e, i, k as int).len() by {
            lemma_seen_all(pat, e, kk, i);
            assert(st.cols[i].len() == factor_col(pat, e, i, kk).len() + (if order.subrange(
                0,
                order.len() as int,
            ).contains(i) {
                1int
            } else {
                0int
            }));
        }
    } else {
        assert forall|i: int| 0 <= i < pat.len() implies (#[trigger] factor_upto(
            pat,
            vals,
            zero,
            k,
        ).cols[i]).len() == factor_col(pat, e, i, k as int).len() by {}
    }
}

// ----------------------------------------------------------------------
// The accumulator is cleared
// ----------------------------------------------------------------------

/// Whether the accumulator is `zero` except at nodes of the row that are
/// still to be eliminated after the first `t`.
pub open spec fn cleared<N>(y: Seq<N>, zero: N, order: Seq<int>, t: int) -> bool {
    forall|x: int|
        0 <= x < y.len() && #[trigger] y[x] != zero ==> exists|b: int|
            t <= b < order.len() && #[trigger] order[b] == x
}

/// Subtracting a column changes the accumulator at the rows of the column
/// only.
pub proof fn lemma_apply_col_touches<N: Scalar>(
    rows: Seq<int>,
    vals: Seq<N>,
    yi: N,
    y: Seq<N>,
    m: int,
    x: int,
)
    requires
        0 <= x < y.len(),
        apply_col(rows, vals, yi, y, m)[x] != y[x],
    ensures
        exists|a: int| 0 <= a < m && #[trigger] rows[a] == x,
    decreases m,
{
    if m > 0 {
        lemma_apply_col_len(rows, vals, yi, y, m - 1);
        if rows[m - 1] != x {
            lemma_apply_col_touches(rows, vals, yi, y, m - 1, x);
        }
    }
}

/// Adding a column changes the accumulator at the rows of the column only,
/// and not below the diagonal.
pub proof fn lemma_scatter_touches<N: Scalar>(
    rows: Seq<int>,
    vals: Seq<N>,
    k: int,
    y: Seq<N>,
    t: int,
    x: int,
)
    requires
        0 <= x < y.len(),
        scatter(rows, vals, k, y, t)[x] != y[x],
    ensures
        x <= k,
        exists|a: int| 0 <= a < t && #[trigger] rows[a] == x,
    decreases t,
{
    if t > 0 {
        lemma_scatter_len(rows, vals, k, y, t - 1);
        if rows[t - 1] != x || !(0 <= rows[t - 1] <= k) {
            lemma_scatter_touches(rows, vals, k, y, t - 1, x);
        }
    }
}

/// Eliminating the first `t` nodes of a row leaves the accumulator `zero`
/// except at the nodes that follow.
pub proof fn lemma_eliminate_clears<N: Scalar>(
    pat: Seq<Seq<int>>,
    diag: Seq<N>,
    zero: N,
    k: int,
    start: RowState<N>,
    t: int,
)
    requires
        pattern_wf(pat),
        0 <= k < pat.len(),
        0 <= t <= row_pattern(pat, k).len(),
        row_shape(pat, k, 0, start),
        cleared(start.y, zero, row_pattern(pat, k), 0),
    ensures
        cleared(
            eliminate(pat, diag, zero, k, row_pattern(pat, k), start, t).y,
            zero,
            row_pattern(pat, k),
            t,
        ),
    decreases t,
{
    let e = etree(pat);
    let order = row_pattern(pat, k);
    if t > 0 {
        let st = eliminate(pat, diag, zero, k, order, start, t - 1);
        let st2 = eliminate(pat, diag, zero, k, order, start, t);
        let i = order[t - 1];
        let rows = factor_col(pat, e, i, k);
        let y1 = st.y.update(i, zero);
        lemma_eliminate_clears(pat, diag, zero, k, start, t - 1);
        lemma_eliminate_shape(pat, diag, zero, k, start, t - 1);
        lemma_eliminate_shape(pat, diag, zero, k, start, t);
        lemma_row_order(pat, k, pat[k].len() as int);
        assert(order.contains(i));
        assert(!order.subrange(0, t - 1).contains(i)) by {
            let done = order.subrange(0, t - 1);
            if done.contains(i) {
                let a = choose|a: int| 0 <= a < done.len() && done[a] == i;
                assert(order[a] == order[t - 1]);
            }
        }
        assert(st.cols[i].len() == rows.len());
        assert(st2.y == apply_col(rows, st.cols[i], st.y[i], y1, rows.len() as int));
        assert forall|x: int| 0 <= x < st2.y.len() && #[trigger] st2.y[x] != zero implies exists|
            b: int,
        |
            t <= b < order.len() && #[trigger] order[b] == x by {
            if st2.y[x] != y1[x] {
                lemma_apply_col_touches(rows, st.cols[i], st.y[i], y1, rows.len() as int, x);
                let a = choose|a: int| 0 <= a < rows.len() && #[trigger] rows[a] == x;
                lemma_factor_col(pat, e, i, k);
                lemma_row_is_ancestor(pat, x, i);
                lemma_ancestor_comes_later(pat, k, t - 1, x);
            } else {
                assert(x != i);
                assert(st.y[x] != zero);
                let b = choose|b: int| t - 1 <= b < order.len() && #[trigger] order[b] == x;
                assert(b != t - 1);
            }
        }
    }
}

/// Between two rows the accumulator is `zero` everywhere.
pub proof fn lemma_accumulator_cleared<N: Scalar>(
    pat: Seq<Seq<int>>,
    vals: Seq<Seq<N>>,
    zero: N,
    k: nat,
)
    requires
        pattern_wf(pat),
        k <= pat.len(),
    ensures
        factor_upto(pat, vals, zero, k).y == Seq::new(k, |x: int| zero),
    decreases k,
{
    let e = etree(pat);
    if k > 0 {
        let kk = (k - 1) as int;
        let before = factor_upto(pat, vals, zero, (k - 1) as nat);
        let after = factor_upto(pat, vals, zero, k);
        let order = row_pattern(pat, kk);
        let start = row_start(pat, vals, zero, kk, before);
        let y0 = loaded(pat, vals, zero, kk, before);
        lemma_accumulator_cleared(pat, vals, zero, (k - 1) as nat);
        lemma_factor_shape(pat, vals, zero, (k - 1) as nat);
        lemma_factor_shape(pat, vals, zero, k);
        lemma_scatter_len(pat[kk], vals[kk], kk, before.y.push(zero), pat[kk].len() as int);
        lemma_row_order(pat, kk, pat[kk].len() as int);
        assert(order.subrange(0, 0) =~= Seq::<int>::empty());
        assert(row_shape(pat, kk, 0, start));
        assert forall|x: int| 0 <= x < start.y.len() && #[trigger] start.y[x] != zero implies exists|
            b: int,
        |
            0 <= b < order.len() && #[trigger] order[b] == x by {
            assert(x != kk);
            assert(before.y.push(zero)[x] == zero);
            lemma_scatter_touches(
                pat[kk],
                vals[kk],
                kk,
                before.y.push(zero),
                pat[kk].len() as int,
                x,
            );
            let a = choose|a: int| 0 <= a < pat[kk].len() && #[trigger] pat[kk][a] == x;
            assert(reaches(e, x, x));
            assert(leads_to(pat, e, kk, a, x));
            assert(seen(pat, e, kk, pat[kk].len() as int, x));
            assert(order.contains(x));
        }
        lemma_eliminate_clears(pat, before.diag, zero, kk, start, order.len() as int);
        assert(after.y =~= Seq::new(k, |x: int| zero));
    } else {
        assert(factor_upto(pat, vals, zero, k).y =~= Seq::new(k, |x: int| zero));
    }
}

} // verus!
