//! Numeric factorization: the values of the factor and its pivots.

use vstd::prelude::*;
use vstd::std_specs::ops::{AddSpec, SubSpec, MulSpec, DivSpec};
use vstd::std_specs::cmp::PartialEqSpec;
use crate::error::LdlError;
use crate::etree::{
    col_count, col_counts, col_of_slot, col_ptr, col_ptrs, etree, factor_col, factor_nnz,
    factor_rows, in_row, isizes, leads_to, lemma_col_of_slot, lemma_col_ptr_monotone,
    lemma_etree_len, lemma_factor_col, lemma_factor_col_empty, lemma_factor_col_prefix,
    lemma_factor_col_slot, lemma_reaches_step, lemma_row_climbs, lemma_slot_in_bounds,
    lemma_slots_differ, pattern_wf, reaches, slot, usizes,
};
use crate::factor::{
    apply_col, eliminate, eliminate_node, factor_step, factor_upto, factor_vals,
    lemma_accumulator_cleared, lemma_apply_col_len, lemma_factor_shape, lemma_scatter_len,
    loaded, row_start, scatter, singular_at, RowState,
};
use crate::exact::{exact, lemma_eq};
use crate::matrix::CsMat;
use crate::permutation::Permutation;
use crate::products::{
    below, d_times, l_times, lemma_solve_round_trip, lt_times, strictly_lower,
};
use crate::reconstruct::lemma_diag_prefix;
use crate::solve::{dsolve, factor_shape, lsolve, ltsolve};
use crate::rowpattern::{
    fresh_path, lemma_marked_end, lemma_marked_start, lemma_marked_step, lemma_row_order,
    lemma_seen_all, lemma_seen_skip, marked, row_order, row_pattern, seen,
};
use crate::scalar::{field_like, Scalar};

verus! {

/// The marks that the climb has set: `k` on the marked nodes, less elsewhere.
pub open spec fn marks_set(
    pat: Seq<Seq<int>>,
    flags: Seq<usize>,
    k: int,
    t: int,
    r: int,
    i: int,
) -> bool {
    &&& flags[k] == k
    &&& forall|x: int|
        0 <= x < k ==> if marked(pat, etree(pat), k, t, r, i, x) {
            (#[trigger] flags[x]) == k
        } else {
            flags[x] < k
        }
}

/// Whether the positions from `top` on hold `order`.
pub open spec fn stack_holds(pattern: Seq<usize>, top: int, order: Seq<int>) -> bool {
    &&& 0 <= top
    &&& top + order.len() == pattern.len()
    &&& forall|q: int| top <= q < pattern.len() ==> (#[trigger] pattern[q]) as int == order[q - top]
}

/// Adds column `k` of `P A Pt`, as far as its diagonal, to the accumulator,
/// and stacks the nodes of row `k` of the factor at the end of
/// `pattern_workspace`, each before its ancestors. Returns where the stack
/// begins.
fn load_column<N: Scalar>(
    mat: &CsMat<N>,
    perm: &Permutation,
    parents: &[isize],
    k: usize,
    zero: N,
    y_workspace: &mut [N],
    pattern_workspace: &mut [usize],
    flag_workspace: &mut [usize],
) -> (top: usize)
    requires
        mat.wf(),
        perm.wf_for(mat.dim as nat),
        k < mat.dim,
        parents@.len() == mat.dim,
        old(y_workspace)@.len() == mat.dim,
        old(pattern_workspace)@.len() == mat.dim,
        old(flag_workspace)@.len() == mat.dim,
        isizes(parents@) == etree(mat.permuted_pattern(perm)),
        N::obeys_add_spec(),
        forall|a: N, b: N| #[trigger] a.add_req(b),
        forall|x: int| 0 <= x < k ==> (#[trigger] old(flag_workspace)@[x]) < k,
    ensures
        final(y_workspace)@.len() == mat.dim,
        final(pattern_workspace)@.len() == mat.dim,
        final(flag_workspace)@.len() == mat.dim,
        stack_holds(
            final(pattern_workspace)@,
            top as int,
            row_pattern(mat.permuted_pattern(perm), k as int),
        ),
        final(y_workspace)@.subrange(0, k + 1) == scatter(
            mat.permuted_pattern(perm)[k as int],
            mat.permuted_values(perm)[k as int],
            k as int,
            old(y_workspace)@.subrange(0, k as int).push(zero),
            mat.permuted_pattern(perm)[k as int].len() as int,
        ),
        forall|x: int| 0 <= x <= k ==> (#[trigger] final(flag_workspace)@[x]) <= k,
{
    let n: usize = mat.rows();
    let ghost pat = mat.permuted_pattern(perm);
    let ghost vals = mat.permuted_values(perm);
    let ghost e = etree(pat);
    let ghost y_init = y_workspace@.subrange(0, k as int).push(zero);
    flag_workspace[k] = k;
    y_workspace[k] = zero;
    let mut top: usize = n;
    let c: usize = perm.at_inv(k);
    proof {
        mat.lemma_permuted_pattern(perm);
        lemma_etree_len(pat);
        perm.lemma_round_trip(n as nat, k as int);
        mat.lemma_col_bounds(c as int);
        lemma_marked_start(pat, k as int, 0, 0);
        assert(y_workspace@.subrange(0, k + 1) =~= y_init);
    }
    let start: usize = mat.indptr[c];
    let end: usize = mat.indptr[c + 1];
    let mut p: usize = start;
    while p < end
        invariant
            start <= p <= end <= mat.indices@.len(),
            start == mat.col_start(c as int),
            end == mat.col_end(c as int),
            c == perm.preimage(k as int),
            0 <= c < n,
            k < n,
            n == mat.dim,
            mat.wf(),
            perm.wf_for(n as nat),
            pat == mat.permuted_pattern(perm),
            vals == mat.permuted_values(perm),
            pat.len() == n,
            pattern_wf(pat),
            e == etree(pat),
            e.len() == n,
            isizes(parents@) == e,
            parents@.len() == n,
            y_workspace@.len() == n,
            pattern_workspace@.len() == n,
            flag_workspace@.len() == n,
            pat[k as int].len() == end - start,
            vals[k as int].len() == end - start,
            N::obeys_add_spec(),
            forall|a: N, b: N| #[trigger] a.add_req(b),
            marks_set(pat, flag_workspace@, k as int, p - start, 0, 0),
            stack_holds(pattern_workspace@, top as int, row_order(pat, e, k as int, p - start)),
            y_workspace@.subrange(0, k + 1) == scatter(
                pat[k as int],
                vals[k as int],
                k as int,
                y_init,
                p - start,
            ),
        decreases end - p,
    {
        let ghost t: int = p - start;
        let ghost order = row_order(pat, e, k as int, t);
        let row: usize = mat.indices[p];
        let first: usize = perm.at(row);
        proof {
            perm.lemma_round_trip(n as nat, row as int);
            assert(pat[k as int][t] == first);
            assert(vals[k as int][t] == mat.data@[p as int]);
            lemma_row_order(pat, k as int, t);
            lemma_row_order(pat, k as int, t + 1);
            assert(row_order(pat, e, k as int, t + 1) == fresh_path(e, first as int, k as int, order)
                + order);
        }
        if first <= k {
            let ghost y_before = y_workspace@;
            y_workspace[first] = y_workspace[first] + mat.data[p];
            proof {
                assert(y_workspace@.subrange(0, k + 1) =~= y_before.subrange(0, k + 1).update(
                    first as int,
                    y_before[first as int].add_spec(mat.data@[p as int]),
                ));
                lemma_marked_start(pat, k as int, t, 0);
                lemma_marked_start(pat, k as int, t, first as int);
            }
            let mut i: usize = first;
            let mut len: usize = 0;
            let ghost path: Seq<int> = Seq::empty();
            while flag_workspace[i] != k
                invariant
                    k < n,
                    pat.len() == n,
                    pattern_wf(pat),
                    e == etree(pat),
                    e.len() == n,
                    isizes(parents@) == e,
                    parents@.len() == n,
                    pattern_workspace@.len() == n,
                    flag_workspace@.len() == n,
                    0 <= t < pat[k as int].len(),
                    first == pat[k as int][t],
                    order == row_order(pat, e, k as int, t),
                    forall|x: int| #[trigger] order.contains(x) <==> seen(pat, e, k as int, t, x),
                    row_order(pat, e, k as int, t + 1) == fresh_path(
                        e,
                        first as int,
                        k as int,
                        order,
                    ) + order,
                    row_order(pat, e, k as int, t + 1).len() <= k,
                    0 <= first <= i <= k,
                    reaches(e, first as int, i as int),
                    marks_set(pat, flag_workspace@, k as int, t, first as int, i as int),
                    stack_holds(pattern_workspace@, top as int, order),
                    len == path.len(),
                    forall|a: int| 0 <= a < len ==> (#[trigger] pattern_workspace@[a]) as int == path[a],
                    fresh_path(e, first as int, k as int, order) == path + fresh_path(
                        e,
                        i as int,
                        k as int,
                        order,
                    ),
                decreases k - i,
            {
                proof {
                    assert(!marked(pat, e, k as int, t, first as int, i as int, i as int));
                    assert(!order.contains(i as int));
                    assert(leads_to(pat, e, k as int, t, i as int));
                    lemma_row_climbs(pat, k as int, i as int);
                    lemma_reaches_step(e, first as int, i as int);
                    lemma_marked_step(pat, k as int, t, i as int);
                    assert(fresh_path(e, i as int, k as int, order) == seq![i as int] + fresh_path(
                        e,
                        e[i as int],
                        k as int,
                        order,
                    ));
                    assert(path + (seq![i as int] + fresh_path(e, e[i as int], k as int, order))
                        =~= path.push(i as int) + fresh_path(e, e[i as int], k as int, order));
                    assert(parents@[i as int] as int == e[i as int]);
                }
                proof {
                    path = path.push(i as int);
                }
                pattern_workspace[len] = i;
                len += 1;
                flag_workspace[i] = k;
                i = parents[i] as usize;
            }
            proof {
                assert(fresh_path(e, i as int, k as int, order).len() == 0);
                assert(fresh_path(e, first as int, k as int, order) =~= path);
                if i < k {
                    assert(marked(pat, e, k as int, t, first as int, i as int, i as int));
                }
                lemma_marked_end(pat, k as int, t, i as int);
                lemma_marked_start(pat, k as int, t + 1, 0);
            }
            let ghost top0: int = top as int;
            while len > 0
                invariant
                    pattern_workspace@.len() == n,
                    len <= path.len(),
                    path.len() + order.len() <= k,
                    k < n,
                    top0 + order.len() == n,
                    top0 - top == path.len() - len,
                    forall|a: int| 0 <= a < len ==> (#[trigger] pattern_workspace@[a]) as int == path[a],
                    forall|q: int|
                        top <= q < top0 ==> (#[trigger] pattern_workspace@[q]) as int == path[len + (q
                            - top)],
                    forall|q: int|
                        top0 <= q < n ==> (#[trigger] pattern_workspace@[q]) as int == order[q - top0],
                decreases len,
            {
                top -= 1;
                len -= 1;
                pattern_workspace[top] = pattern_workspace[len];
            }
            proof {
                assert(stack_holds(pattern_workspace@, top as int, path + order));
            }
        } else {
            proof {
                lemma_seen_skip(pat, k as int, t);
                lemma_marked_start(pat, k as int, t, 0);
                lemma_marked_start(pat, k as int, t + 1, 0);
                assert(fresh_path(e, first as int, k as int, order).len() == 0);
                assert(row_order(pat, e, k as int, t + 1) =~= order);
            }
        }
        p += 1;
    }
    proof {
        lemma_marked_start(pat, k as int, (end - start) as int, 0);
    }
    top
}

/// Whether the arrays hold the columns `cols` of the factor: each value and
/// its row at the position of the entry, and in `l_nz` the number of entries
/// of each of the first `k` columns.
pub open spec fn stored<N>(
    pat: Seq<Seq<int>>,
    l_nz: Seq<usize>,
    l_indices: Seq<usize>,
    l_data: Seq<N>,
    cols: Seq<Seq<N>>,
    k: int,
) -> bool {
    let e = etree(pat);
    let n = pat.len() as int;
    &&& cols.len() == n
    &&& forall|i: int| 0 <= i < n ==> (#[trigger] cols[i]).len() <= col_count(pat, i)
    &&& forall|i: int| 0 <= i < k ==> (#[trigger] l_nz[i]) == cols[i].len()
    &&& forall|i: int, t: int|
        0 <= i < n && 0 <= t < cols[i].len() ==> l_indices[#[trigger] slot(pat, i, t)]
            == factor_col(pat, e, i, n)[t]
    &&& forall|i: int, t: int|
        0 <= i < n && 0 <= t < cols[i].len() ==> l_data[#[trigger] slot(pat, i, t)] == cols[i][t]
}

/// Writing the entry of row `k` at the end of column `i` keeps the arrays in
/// step with the columns.
proof fn lemma_store_entry<N>(
    pat: Seq<Seq<int>>,
    l_nz: Seq<usize>,
    l_indices: Seq<usize>,
    l_data: Seq<N>,
    cols: Seq<Seq<N>>,
    k: int,
    i: int,
    v: N,
)
    requires
        pattern_wf(pat),
        0 <= i < k < pat.len(),
        k < usize::MAX,
        l_nz.len() == pat.len(),
        l_indices.len() == factor_nnz(pat),
        l_data.len() == factor_nnz(pat),
        stored(pat, l_nz, l_indices, l_data, cols, k + 1),
        cols[i].len() == factor_col(pat, etree(pat), i, k).len(),
        in_row(pat, etree(pat), k, i),
    ensures
        0 <= slot(pat, i, cols[i].len() as int) < factor_nnz(pat),
        l_nz[i] <= k,
        stored(
            pat,
            l_nz.update(i, (l_nz[i] + 1) as usize),
            l_indices.update(slot(pat, i, cols[i].len() as int), k as usize),
            l_data.update(slot(pat, i, cols[i].len() as int), v),
            cols.update(i, cols[i].push(v)),
            k + 1,
        ),
{
    let e = etree(pat);
    let n = pat.len() as int;
    let c = cols[i].len() as int;
    let place = slot(pat, i, c);
    let cols2 = cols.update(i, cols[i].push(v));
    let l_nz2 = l_nz.update(i, (l_nz[i] + 1) as usize);
    let l_indices2 = l_indices.update(place, k as usize);
    let l_data2 = l_data.update(place, v);
    lemma_factor_col_slot(pat, e, i, k, n);
    lemma_slot_in_bounds(pat, i, c);
    lemma_factor_col(pat, e, i, k);
    assert(l_nz[i] == cols[i].len());
    assert forall|j: int| 0 <= j < n implies (#[trigger] cols2[j]).len() <= col_count(pat, j) by {
        assert(cols[j].len() <= col_count(pat, j));
    }
    assert forall|j: int| 0 <= j < k + 1 implies (#[trigger] l_nz2[j]) == cols2[j].len() by {
        assert(l_nz[j] == cols[j].len());
    }
    assert forall|j: int, t: int| 0 <= j < n && 0 <= t < cols2[j].len() implies l_indices2[#[trigger] slot(
        pat,
        j,
        t,
    )] == factor_col(pat, e, j, n)[t] && l_data2[slot(pat, j, t)] == cols2[j][t] by {
        assert(cols[j].len() <= col_count(pat, j));
        if j == i && t == c {
        } else {
            lemma_slots_differ(pat, i, c, j, t);
            lemma_slot_in_bounds(pat, j, t);
            assert(l_indices[slot(pat, j, t)] == factor_col(pat, e, j, n)[t]);
            assert(l_data[slot(pat, j, t)] == cols[j][t]);
        }
    }
}

/// Eliminates the nodes stacked from `top` on from row `k`: finishes the
/// pivot of the row in `diag[k]` and appends one entry to the column of each
/// node.
fn eliminate_row<N: Scalar>(
    l_colptr: &[usize],
    k: usize,
    zero: N,
    top: usize,
    l_nz: &mut [usize],
    l_indices: &mut [usize],
    l_data: &mut [N],
    diag: &mut [N],
    y_workspace: &mut [N],
    pattern_workspace: &[usize],
    Ghost(pat): Ghost<Seq<Seq<int>>>,
    Ghost(start): Ghost<RowState<N>>,
    Ghost(pivots): Ghost<Seq<N>>,
)
    requires
        pattern_wf(pat),
        k < pat.len(),
        field_like::<N>(zero),
        usizes(l_colptr@) == col_ptrs(pat),
        old(l_indices)@.len() == factor_nnz(pat),
        old(l_data)@.len() == factor_nnz(pat),
        old(l_nz)@.len() == pat.len(),
        old(diag)@.len() == pat.len(),
        old(y_workspace)@.len() == pat.len(),
        pattern_workspace@.len() == pat.len(),
        stack_holds(pattern_workspace@, top as int, row_pattern(pat, k as int)),
        stored(pat, old(l_nz)@, old(l_indices)@, old(l_data)@, start.cols, k + 1),
        forall|i: int|
            0 <= i < pat.len() ==> (#[trigger] start.cols[i]).len() == factor_col(
                pat,
                etree(pat),
                i,
                k as int,
            ).len(),
        old(y_workspace)@.subrange(0, k + 1) == start.y,
        old(diag)@[k as int] == start.pivot,
        old(diag)@.subrange(0, k as int) == pivots,
        forall|i: int| 0 <= i < k ==> !(#[trigger] pivots[i]).eq_spec(&zero),
    ensures
        final(l_indices)@.len() == old(l_indices)@.len(),
        final(l_data)@.len() == old(l_data)@.len(),
        final(l_nz)@.len() == old(l_nz)@.len(),
        final(diag)@.len() == old(diag)@.len(),
        final(y_workspace)@.len() == old(y_workspace)@.len(),
        ({
            let order = row_pattern(pat, k as int);
            let st = eliminate(pat, pivots, zero, k as int, order, start, order.len() as int);
            &&& stored(pat, final(l_nz)@, final(l_indices)@, final(l_data)@, st.cols, k + 1)
            &&& forall|i: int|
                0 <= i < pat.len() ==> (#[trigger] st.cols[i]).len() == factor_col(
                    pat,
                    etree(pat),
                    i,
                    k + 1,
                ).len()
            &&& final(y_workspace)@.subrange(0, k + 1) == st.y
            &&& final(diag)@[k as int] == st.pivot
            &&& final(diag)@.subrange(0, k as int) == pivots
        }),
{
    let n: usize = pattern_workspace.len();
    let nnz: usize = l_indices.len();
    let ghost e = etree(pat);
    let ghost order = row_pattern(pat, k as int);
    proof {
        lemma_row_order(pat, k as int, pat[k as int].len() as int);
        assert(order.subrange(0, 0) =~= Seq::<int>::empty());
        assert(usizes(l_colptr@).len() == l_colptr@.len());
    }
    let mut q: usize = top;
    while q < n
        invariant
            top <= q <= n,
            n == pat.len(),
            k < n,
            pattern_wf(pat),
            e == etree(pat),
            order == row_pattern(pat, k as int),
            order.no_duplicates(),
            forall|x: int| #[trigger]
                order.contains(x) <==> seen(pat, e, k as int, pat[k as int].len() as int, x),
            field_like::<N>(zero),
            usizes(l_colptr@) == col_ptrs(pat),
            l_colptr@.len() == n + 1,
            nnz == factor_nnz(pat),
            l_indices@.len() == factor_nnz(pat),
            l_data@.len() == factor_nnz(pat),
            l_nz@.len() == n,
            diag@.len() == n,
            y_workspace@.len() == n,
            pattern_workspace@.len() == n,
            stack_holds(pattern_workspace@, top as int, order),
            stored(
                pat,
                l_nz@,
                l_indices@,
                l_data@,
                eliminate(pat, pivots, zero, k as int, order, start, q - top).cols,
                k + 1,
            ),
            forall|i: int|
                0 <= i < n ==> (#[trigger] eliminate(
                    pat,
                    pivots,
                    zero,
                    k as int,
                    order,
                    start,
                    q - top,
                ).cols[i]).len() == factor_col(pat, e, i, k as int).len() + (if order.subrange(
                    0,
                    q - top,
                ).contains(i) {
                    1int
                } else {
                    0int
                }),
            y_workspace@.subrange(0, k + 1) == eliminate(
                pat,
                pivots,
                zero,
                k as int,
                order,
                start,
                q - top,
            ).y,
            diag@[k as int] == eliminate(pat, pivots, zero, k as int, order, start, q - top).pivot,
            diag@.subrange(0, k as int) == pivots,
            forall|i: int| 0 <= i < k ==> !(#[trigger] pivots[i]).eq_spec(&zero),
        decreases n - q,
    {
        let ghost idx: int = q - top;
        let ghost st = eliminate(pat, pivots, zero, k as int, order, start, idx);
        let i: usize = pattern_workspace[q];
        let ghost rows = factor_col(pat, e, i as int, k as int);
        proof {
            assert(i == order[idx]);
            assert(order.contains(i as int));
            lemma_seen_all(pat, e, k as int, i as int);
            assert(!order.subrange(0, idx).contains(i as int)) by {
                let done = order.subrange(0, idx);
                if done.contains(i as int) {
                    let a = choose|a: int| 0 <= a < done.len() && done[a] == i as int;
                    assert(order[a] == order[idx]);
                }
            }
            assert(st.cols[i as int].len() == rows.len());
            lemma_store_entry(
                pat,
                l_nz@,
                l_indices@,
                l_data@,
                st.cols,
                k as int,
                i as int,
                st.y[i as int].div_spec(pivots[i as int]),
            );
            lemma_slot_in_bounds(pat, i as int, rows.len() as int);
            lemma_col_ptr_monotone(pat, 0, i as int);
            assert(l_colptr@[i as int] as int == usizes(l_colptr@)[i as int]);
            assert(usizes(l_colptr@)[i as int] == col_ptr(pat, i as int));
            assert(l_nz@[i as int] == st.cols[i as int].len());
            assert(y_workspace@[i as int] == y_workspace@.subrange(0, k + 1)[i as int]);
            assert(diag@[i as int] == diag@.subrange(0, k as int)[i as int]);
        }
        let yi: N = y_workspace[i];
        y_workspace[i] = zero;
        let first: usize = l_colptr[i];
        let end: usize = first + l_nz[i];
        let ghost y1 = st.y.update(i as int, zero);
        proof {
            assert(y_workspace@.subrange(0, k + 1) =~= y1);
        }
        let mut p: usize = first;
        while p < end
            invariant
                first <= p <= end < factor_nnz(pat),
                n == pat.len(),
                i < k < n,
                pattern_wf(pat),
                e == etree(pat),
                field_like::<N>(zero),
                first == col_ptr(pat, i as int),
                end - first == rows.len(),
                rows == factor_col(pat, e, i as int, k as int),
                st.cols[i as int].len() == rows.len(),
                l_indices@.len() == factor_nnz(pat),
                l_data@.len() == factor_nnz(pat),
                y_workspace@.len() == n,
                y1.len() == k + 1,
                stored(pat, l_nz@, l_indices@, l_data@, st.cols, k + 1),
                y_workspace@.subrange(0, k + 1) == apply_col(
                    rows,
                    st.cols[i as int],
                    yi,
                    y1,
                    p - first,
                ),
            decreases end - p,
        {
            let ghost m: int = p - first;
            proof {
                assert(p == slot(pat, i as int, m));
                lemma_factor_col(pat, e, i as int, k as int);
                lemma_factor_col_prefix(pat, e, i as int, k as int, n as int);
                assert(l_indices@[p as int] == rows[m]);
                assert(l_data@[p as int] == st.cols[i as int][m]);
                lemma_apply_col_len(rows, st.cols[i as int], yi, y1, m);
            }
            let y_index: usize = l_indices[p];
            let ghost y_before = y_workspace@;
            y_workspace[y_index] = y_workspace[y_index] - l_data[p] * yi;
            proof {
                assert(y_before[y_index as int] == y_before.subrange(0, k + 1)[y_index as int]);
                assert(y_workspace@.subrange(0, k + 1) =~= y_before.subrange(0, k + 1).update(
                    y_index as int,
                    y_before[y_index as int].sub_spec(l_data@[p as int].mul_spec(yi)),
                ));
            }
            p += 1;
        }
        let l_ki: N = yi / diag[i];
        diag[k] = diag[k] - l_ki * yi;
        l_indices[end] = k;
        l_data[end] = l_ki;
        l_nz[i] += 1;
        proof {
            let st2 = eliminate(pat, pivots, zero, k as int, order, start, idx + 1);
            assert(st2 == eliminate_node(pat, pivots, zero, k as int, i as int, st));
            assert(end == slot(pat, i as int, rows.len() as int));
            assert(diag@.subrange(0, k as int) =~= pivots);
            assert(order.subrange(0, idx + 1) =~= order.subrange(0, idx).push(i as int));
            assert forall|j: int| 0 <= j < n implies (#[trigger] st2.cols[j]).len() == factor_col(
                pat,
                e,
                j,
                k as int,
            ).len() + (if order.subrange(0, idx + 1).contains(j) {
                1int
            } else {
                0int
            }) by {
                assert(st.cols[j].len() == factor_col(pat, e, j, k as int).len() + (if order.subrange(
                    0,
                    idx,
                ).contains(j) {
                    1int
                } else {
                    0int
                }));
                let done = order.subrange(0, idx);
                let done2 = order.subrange(0, idx + 1);
                if done2.contains(j) {
                    let a = choose|a: int| 0 <= a < done2.len() && done2[a] == j;
                    if a < idx {
                        assert(done[a] == j);
                    }
                }
                if done.contains(j) {
                    let a = choose|a: int| 0 <= a < done.len() && done[a] == j;
                    assert(done2[a] == j);
                }
                if j == i {
                    assert(done2[idx] == j);
                }
            }
        }
        q += 1;
    }
    proof {
        let st = eliminate(pat, pivots, zero, k as int, order, start, order.len() as int);
        assert(order.subrange(0, order.len() as int) =~= order);
        assert forall|i: int| 0 <= i < n implies (#[trigger] st.cols[i]).len() == factor_col(
            pat,
            e,
            i,
            k + 1,
        ).len() by {
            lemma_seen_all(pat, e, k as int, i);
            assert(st.cols[i].len() == factor_col(pat, e, i, k as int).len() + (if order.subrange(
                0,
                order.len() as int,
            ).contains(i) {
                1int
            } else {
                0int
            }));
        }
    }
}

/// Whether the three arrays hold the factor of `P A Pt`: the rows and the
/// values of the part below the diagonal, column after column, and the
/// pivots.
pub open spec fn is_factor_of<N: Scalar>(
    mat: &CsMat<N>,
    perm: &Permutation,
    zero: N,
    l_indices: Seq<usize>,
    l_data: Seq<N>,
    diag: Seq<N>,
) -> bool {
    let pat = mat.permuted_pattern(perm);
    let f = factor_upto(pat, mat.permuted_values(perm), zero, mat.dim as nat);
    &&& usizes(l_indices) == factor_rows(pat)
    &&& l_data == factor_vals(pat, f.cols)
    &&& diag == f.diag
}

/// A matrix has one factor under a permutation: factorizing again, into
/// arrays that held anything before, gives the same rows, values and pivots.
pub proof fn lemma_factor_unique<N: Scalar>(
    mat: &CsMat<N>,
    perm: &Permutation,
    zero: N,
    l_indices: Seq<usize>,
    l_data: Seq<N>,
    diag: Seq<N>,
    l_indices2: Seq<usize>,
    l_data2: Seq<N>,
    diag2: Seq<N>,
)
    requires
        is_factor_of(mat, perm, zero, l_indices, l_data, diag),
        is_factor_of(mat, perm, zero, l_indices2, l_data2, diag2),
    ensures
        l_indices == l_indices2,
        l_data == l_data2,
        diag == diag2,
{
    assert(usizes(l_indices).len() == l_indices.len());
    assert(usizes(l_indices2).len() == l_indices2.len());
    assert forall|p: int| 0 <= p < l_indices.len() implies l_indices[p] == l_indices2[p] by {
        assert(usizes(l_indices)[p] == usizes(l_indices2)[p]);
    }
    assert(l_indices =~= l_indices2);
}

/// The arrays of a factor have the shape that the solves ask for, every entry
/// lies below the diagonal, and there is one pivot for each column.
pub proof fn lemma_factor_arrays<N: Scalar>(
    mat: &CsMat<N>,
    perm: &Permutation,
    zero: N,
    l_colptr: Seq<usize>,
    l_indices: Seq<usize>,
    l_data: Seq<N>,
    diag: Seq<N>,
)
    requires
        mat.wf(),
        perm.wf_for(mat.dim as nat),
        usizes(l_colptr) == col_ptrs(mat.permuted_pattern(perm)),
        is_factor_of(mat, perm, zero, l_indices, l_data, diag),
    ensures
        factor_shape(l_colptr, l_indices, l_data.len(), mat.dim as nat),
        strictly_lower(l_colptr, l_indices, mat.dim as nat),
        diag.len() == mat.dim,
{
    let pat = mat.permuted_pattern(perm);
    let e = etree(pat);
    let n = mat.dim as int;
    mat.lemma_permuted_pattern(perm);
    lemma_factor_shape(pat, mat.permuted_values(perm), zero, mat.dim as nat);
    lemma_col_ptr_monotone(pat, 0, n);
    assert(usizes(l_colptr).len() == l_colptr.len());
    assert(usizes(l_indices).len() == l_indices.len());
    assert forall|c: int| 0 <= c <= n implies (#[trigger] l_colptr[c]) as int == col_ptr(pat, c) by {
        assert(usizes(l_colptr)[c] == col_ptrs(pat)[c]);
    }
    assert forall|c: int| 0 <= c < n implies #[trigger] l_colptr[c] <= l_colptr[c + 1] by {
        lemma_col_ptr_monotone(pat, c, c + 1);
    }
    assert forall|c: int, p: int|
        0 <= c < n && l_colptr[c] <= p < l_colptr[c + 1] implies c < #[trigger] below(
        l_indices,
        c,
        p,
    ) < n by {
        lemma_col_ptr_monotone(pat, 0, c);
        lemma_col_ptr_monotone(pat, c + 1, n);
        lemma_col_of_slot(pat, p, n);
        let i = col_of_slot(pat, p, n);
        if i < c {
            lemma_col_ptr_monotone(pat, i + 1, c);
        }
        if c < i {
            lemma_col_ptr_monotone(pat, c + 1, i);
        }
        assert(usizes(l_indices)[p] == factor_rows(pat)[p]);
        lemma_factor_col(pat, e, c, n);
    }
    assert forall|p: int| l_colptr[0] <= p < l_colptr[n] implies (#[trigger] l_indices[p]) < n by {
        lemma_col_of_slot(pat, p, n);
        let c = col_of_slot(pat, p, n);
        assert(below(l_indices, c, p) < n);
    }
}

/// No pivot of a factor equals `zero`, if none came out equal to `zero`.
pub proof fn lemma_factor_pivots<N: Scalar>(
    mat: &CsMat<N>,
    perm: &Permutation,
    zero: N,
    l_indices: Seq<usize>,
    l_data: Seq<N>,
    diag: Seq<N>,
)
    requires
        mat.wf(),
        perm.wf_for(mat.dim as nat),
        is_factor_of(mat, perm, zero, l_indices, l_data, diag),
        forall|k: int|
            0 <= k < mat.dim ==> !#[trigger] singular_at(
                mat.permuted_pattern(perm),
                mat.permuted_values(perm),
                zero,
                k,
            ),
    ensures
        diag.len() == mat.dim,
        forall|k: int| 0 <= k < mat.dim ==> !(#[trigger] diag[k]).eq_spec(&zero),
{
    let pat = mat.permuted_pattern(perm);
    let vals = mat.permuted_values(perm);
    mat.lemma_permuted_pattern(perm);
    lemma_factor_shape(pat, vals, zero, mat.dim as nat);
    assert forall|k: int| 0 <= k < mat.dim implies !(#[trigger] diag[k]).eq_spec(&zero) by {
        assert(!singular_at(pat, vals, zero, k));
        lemma_diag_prefix(pat, vals, zero, k + 1, mat.dim as int, k);
    }
}

/// In exact arithmetic, and if no pivot comes out as `zero`, the three
/// solves with the factor of a matrix turn `b` into an `x` with
/// `L (D (Lt x)) == b`.
pub proof fn lemma_factor_solves<N: Scalar>(
    mat: &CsMat<N>,
    perm: &Permutation,
    zero: N,
    l_colptr: Seq<usize>,
    l_indices: Seq<usize>,
    l_data: Seq<N>,
    diag: Seq<N>,
    b: Seq<N>,
)
    requires
        exact(zero),
        mat.wf(),
        perm.wf_for(mat.dim as nat),
        usizes(l_colptr) == col_ptrs(mat.permuted_pattern(perm)),
        is_factor_of(mat, perm, zero, l_indices, l_data, diag),
        forall|k: int|
            0 <= k < mat.dim ==> !#[trigger] singular_at(
                mat.permuted_pattern(perm),
                mat.permuted_values(perm),
                zero,
                k,
            ),
        b.len() == mat.dim,
    ensures
        ({
            let z = lsolve(l_colptr, l_indices, l_data, b);
            let y = dsolve(diag, z);
            let x = ltsolve(l_colptr, l_indices, l_data, y);
            l_times(
                l_colptr,
                l_indices,
                l_data,
                d_times(diag, lt_times(l_colptr, l_indices, l_data, x, zero)),
                zero,
            ) == b
        }),
{
    lemma_factor_arrays(mat, perm, zero, l_colptr, l_indices, l_data, diag);
    lemma_factor_pivots(mat, perm, zero, l_indices, l_data, diag);
    assert forall|i: int| 0 <= i < diag.len() implies #[trigger] diag[i] != zero by {
        lemma_eq(zero, diag[i], zero);
    }
    lemma_solve_round_trip(l_colptr, l_indices, l_data, diag, b, zero);
}

/// Computes the factor of `P A Pt` into `l_indices`, `l_data` and `diag`, for
/// the structure that symbolic factorization found for the same matrix and
/// permutation. `zero` is the additive identity of the element type.
///
/// The rows are computed in order. Row `k` adds column `k` of `P A Pt` to the
/// accumulator, eliminates the nodes of the row in the order of
/// `row_pattern`, and tests the pivot: a pivot equal to `zero` ends the
/// factorization with `SingularPivot`, and what the arrays then hold is not a
/// factor.
///
/// Nothing is read from the arrays that are written, so a second run on the
/// same matrix gives the same factor. The accumulator `y_workspace` is left
/// cleared, the two other workspaces in no particular state.
///
/// The values are defined by the operations that compute them, in their
/// order. That in exact arithmetic they make up a factor of the matrix is
/// `lemma_arrays_reproduce_matrix`.
pub fn ldl_numeric<N: Scalar>(
    mat: &CsMat<N>,
    l_colptr: &[usize],
    parents: &[isize],
    perm: &Permutation,
    l_nz: &mut [usize],
    l_indices: &mut [usize],
    l_data: &mut [N],
    diag: &mut [N],
    y_workspace: &mut [N],
    pattern_workspace: &mut [usize],
    flag_workspace: &mut [usize],
    zero: N,
) -> (res: Result<(), LdlError>)
    requires
        mat.wf(),
        perm.wf_for(mat.dim as nat),
        field_like::<N>(zero),
        usizes(l_colptr@) == col_ptrs(mat.permuted_pattern(perm)),
        isizes(parents@) == etree(mat.permuted_pattern(perm)),
        old(l_nz)@.len() == mat.dim,
        old(l_indices)@.len() == factor_nnz(mat.permuted_pattern(perm)),
        old(l_data)@.len() == factor_nnz(mat.permuted_pattern(perm)),
        old(diag)@.len() == mat.dim,
        old(y_workspace)@.len() == mat.dim,
        old(pattern_workspace)@.len() == mat.dim,
        old(flag_workspace)@.len() == mat.dim,
    ensures
        final(l_nz)@.len() == old(l_nz)@.len(),
        final(l_indices)@.len() == old(l_indices)@.len(),
        final(l_data)@.len() == old(l_data)@.len(),
        final(diag)@.len() == old(diag)@.len(),
        final(y_workspace)@.len() == old(y_workspace)@.len(),
        final(pattern_workspace)@.len() == old(pattern_workspace)@.len(),
        final(flag_workspace)@.len() == old(flag_workspace)@.len(),
        res is Err <==> exists|k: int|
            0 <= k < mat.dim && #[trigger] singular_at(
                mat.permuted_pattern(perm),
                mat.permuted_values(perm),
                zero,
                k,
            ),
        res is Err ==> res == Err::<(), LdlError>(LdlError::SingularPivot),
        res is Ok ==> {
            &&& is_factor_of(mat, perm, zero, final(l_indices)@, final(l_data)@, final(diag)@)
            &&& usizes(final(l_nz)@) == col_counts(mat.permuted_pattern(perm))
            &&& final(y_workspace)@ == Seq::new(mat.dim as nat, |i: int| zero)
        },
{
    let n: usize = mat.rows();
    let ghost pat = mat.permuted_pattern(perm);
    let ghost vals = mat.permuted_values(perm);
    let ghost e = etree(pat);
    proof {
        mat.lemma_permuted_pattern(perm);
        lemma_etree_len(pat);
        assert(diag@.subrange(0, 0) =~= Seq::<N>::empty());
        assert(y_workspace@.subrange(0, 0) =~= Seq::<N>::empty());
        let f0 = factor_upto(pat, vals, zero, 0);
        assert forall|i: int| 0 <= i < n implies (#[trigger] f0.cols[i]).len() == factor_col(
            pat,
            e,
            i,
            0,
        ).len() by {}
    }
    let mut k: usize = 0;
    while k < n
        invariant
            k <= n,
            n == mat.dim,
            mat.wf(),
            perm.wf_for(n as nat),
            field_like::<N>(zero),
            pat == mat.permuted_pattern(perm),
            vals == mat.permuted_values(perm),
            pat.len() == n,
            pattern_wf(pat),
            e == etree(pat),
            usizes(l_colptr@) == col_ptrs(pat),
            isizes(parents@) == e,
            parents@.len() == n,
            l_nz@.len() == n,
            l_indices@.len() == factor_nnz(pat),
            l_data@.len() == factor_nnz(pat),
            diag@.len() == n,
            y_workspace@.len() == n,
            pattern_workspace@.len() == n,
            flag_workspace@.len() == n,
            old(l_nz)@.len() == n,
            old(l_indices)@.len() == factor_nnz(pat),
            old(l_data)@.len() == factor_nnz(pat),
            old(diag)@.len() == n,
            old(y_workspace)@.len() == n,
            old(pattern_workspace)@.len() == n,
            old(flag_workspace)@.len() == n,
            stored(
                pat,
                l_nz@,
                l_indices@,
                l_data@,
                factor_upto(pat, vals, zero, k as nat).cols,
                k as int,
            ),
            forall|i: int|
                0 <= i < n ==> (#[trigger] factor_upto(pat, vals, zero, k as nat).cols[i]).len()
                    == factor_col(pat, e, i, k as int).len(),
            diag@.subrange(0, k as int) == factor_upto(pat, vals, zero, k as nat).diag,
            y_workspace@.subrange(0, k as int) == factor_upto(pat, vals, zero, k as nat).y,
            forall|x: int| 0 <= x < k ==> (#[trigger] flag_workspace@[x]) < k,
            forall|j: int| 0 <= j < k ==> !(#[trigger] diag@[j]).eq_spec(&zero),
            forall|j: int| 0 <= j < k ==> !#[trigger] singular_at(pat, vals, zero, j),
        decreases n - k,
    {
        let ghost before = factor_upto(pat, vals, zero, k as nat);
        let ghost y0 = loaded(pat, vals, zero, k as int, before);
        let ghost start = row_start(pat, vals, zero, k as int, before);
        l_nz[k] = 0;
        let top: usize = load_column(
            mat,
            perm,
            parents,
            k,
            zero,
            y_workspace,
            pattern_workspace,
            flag_workspace,
        );
        proof {
            lemma_scatter_len(
                pat[k as int],
                vals[k as int],
                k as int,
                before.y.push(zero),
                pat[k as int].len() as int,
            );
            assert(y_workspace@.subrange(0, k + 1) == y0);
            assert(y_workspace@[k as int] == y0[k as int]);
        }
        let ghost diag_before = diag@;
        let ghost y_loaded = y_workspace@;
        diag[k] = y_workspace[k];
        y_workspace[k] = zero;
        proof {
            assert(diag@.subrange(0, k as int) =~= diag_before.subrange(0, k as int));
            assert(y_workspace@.subrange(0, k + 1) =~= y_loaded.subrange(0, k + 1).update(
                k as int,
                zero,
            ));
            lemma_factor_col_empty(pat, e, k as int, k as int);
            assert(before.cols[k as int].len() == 0);
            assert forall|i: int| 0 <= i < k + 1 implies (#[trigger] l_nz@[i])
                == before.cols[i].len() by {}
            assert(stored(pat, l_nz@, l_indices@, l_data@, start.cols, k + 1));
            assert forall|i: int| 0 <= i < k implies !(#[trigger] before.diag[i]).eq_spec(
                &zero,
            ) by {
                assert(before.diag[i] == diag_before.subrange(0, k as int)[i]);
                assert(!diag_before[i].eq_spec(&zero));
            }
        }
        eliminate_row(
            l_colptr,
            k,
            zero,
            top,
            l_nz,
            l_indices,
            l_data,
            diag,
            y_workspace,
            pattern_workspace,
            Ghost(pat),
            Ghost(start),
            Ghost(before.diag),
        );
        proof {
            let order = row_pattern(pat, k as int);
            let st = eliminate(pat, before.diag, zero, k as int, order, start, order.len() as int);
            let after = factor_upto(pat, vals, zero, (k + 1) as nat);
            assert(after == factor_step(pat, vals, zero, k as int, before));
            assert(after.cols == st.cols);
            assert(after.y == st.y);
            assert(after.diag == before.diag.push(st.pivot));
            assert(diag@.subrange(0, k + 1) =~= after.diag);
            assert(singular_at(pat, vals, zero, k as int) == diag@[k as int].eq_spec(&zero));
        }
        if diag[k] == zero {
            return Err(LdlError::SingularPivot);
        }
        proof {
            assert forall|j: int| 0 <= j < k + 1 implies !(#[trigger] diag@[j]).eq_spec(&zero) by {
                if j < k {
                    assert(diag@[j] == diag@.subrange(0, k as int)[j]);
                    assert(diag@[j] == diag_before.subrange(0, k as int)[j]);
                }
            }
        }
        k += 1;
    }
    proof {
        let f = factor_upto(pat, vals, zero, n as nat);
        assert(diag@.subrange(0, n as int) =~= diag@);
        assert(y_workspace@.subrange(0, n as int) =~= y_workspace@);
        lemma_accumulator_cleared(pat, vals, zero, n as nat);
        assert(usizes(l_nz@) =~= col_counts(pat)) by {
            assert forall|i: int| 0 <= i < n implies l_nz@[i] as int == col_count(pat, i) by {
                assert(l_nz@[i] == f.cols[i].len());
            }
        }
        assert forall|p: int| 0 <= p < factor_nnz(pat) implies (#[trigger] l_indices@[p]) as int
            == factor_rows(pat)[p] by {
            lemma_col_of_slot(pat, p, n as int);
            let i = col_of_slot(pat, p, n as int);
            let t = p - col_ptr(pat, i);
            assert(f.cols[i].len() == col_count(pat, i));
            assert(p == slot(pat, i, t));
        }
        assert forall|p: int| 0 <= p < factor_nnz(pat) implies #[trigger] l_data@[p]
            == factor_vals(pat, f.cols)[p] by {
            lemma_col_of_slot(pat, p, n as int);
            let i = col_of_slot(pat, p, n as int);
            let t = p - col_ptr(pat, i);
            assert(f.cols[i].len() == col_count(pat, i));
            assert(p == slot(pat, i, t));
        }
        assert(usizes(l_indices@) =~= factor_rows(pat));
        assert(l_data@ =~= factor_vals(pat, f.cols));
    }
    Ok(())
}

} // verus!
