//! Symbolic factorization: the elimination tree and the factor's column counts.

use vstd::prelude::*;
use vstd::std_specs::cmp::PartialEqSpec;
use crate::error::LdlError;
use crate::etree::{
    col_count, col_counts, col_ptr, col_ptrs, etree, factor_col, factor_nnz, in_row, isizes,
    leads_to, lemma_col_ptr_monotone, lemma_etree_len, lemma_etree_parent, lemma_factor_col,
    lemma_factor_col_empty, lemma_reaches_linear, lemma_reaches_step, lemma_reaches_trans,
    lemma_row_climbs, pattern_wf, reaches, usizes,
};
use crate::matrix::CsMat;
use crate::permutation::Permutation;
use crate::rowpattern::{lemma_seen_next, marked, seen};

verus! {

/// Whether the symbolic phase verifies that its input is symmetric.
#[derive(Clone, Copy, Debug, PartialEq, Eq)]
pub enum SymmetryCheck {
    CheckSymmetry,
    DontCheckSymmetry,
}

/// What the arrays hold between two columns: the links that lead below `k`,
/// the counts of the rows below `k`, and no mark for `k`.
pub open spec fn columns_done(
    pat: Seq<Seq<int>>,
    parents: Seq<isize>,
    l_nz: Seq<usize>,
    flags: Seq<usize>,
    k: int,
) -> bool {
    let e = etree(pat);
    &&& forall|x: int|
        0 <= x < k ==> (#[trigger] parents[x]) as int == (if e[x] != -1 && e[x] < k {
            e[x]
        } else {
            -1
        })
    &&& forall|x: int|
        0 <= x < k ==> (#[trigger] l_nz[x]) as int == factor_col(pat, e, x, k).len()
    &&& forall|x: int| 0 <= x < k ==> (#[trigger] flags[x]) < k
}

/// What the arrays hold inside column `k`, in terms of the marked nodes.
pub open spec fn column_open(
    pat: Seq<Seq<int>>,
    parents: Seq<isize>,
    l_nz: Seq<usize>,
    flags: Seq<usize>,
    k: int,
    t: int,
    r: int,
    i: int,
) -> bool {
    let e = etree(pat);
    &&& parents[k] as int == -1
    &&& l_nz[k] as int == 0
    &&& flags[k] as int == k
    &&& forall|x: int|
        0 <= x < k ==> (#[trigger] parents[x]) as int == (if e[x] != -1 && (e[x] < k || marked(
            pat,
            e,
            k,
            t,
            r,
            i,
            x,
        )) {
            e[x]
        } else {
            -1
        })
    &&& forall|x: int|
        0 <= x < k ==> (#[trigger] l_nz[x]) as int == factor_col(pat, e, x, k).len() + (if marked(
            pat,
            e,
            k,
            t,
            r,
            i,
            x,
        ) {
            1int
        } else {
            0int
        })
    &&& forall|x: int|
        0 <= x < k ==> if marked(pat, e, k, t, r, i, x) {
            (#[trigger] flags[x]) == k
        } else {
            flags[x] < k
        }
}

/// Opening column `k` marks nothing.
proof fn lemma_open_column(
    pat: Seq<Seq<int>>,
    parents: Seq<isize>,
    l_nz: Seq<usize>,
    flags: Seq<usize>,
    k: int,
)
    requires
        pattern_wf(pat),
        0 <= k < pat.len(),
        columns_done(pat, parents, l_nz, flags, k),
        parents[k] as int == -1,
        l_nz[k] as int == 0,
        flags[k] as int == k,
    ensures
        column_open(pat, parents, l_nz, flags, k, 0, 0, 0),
{
    let e = etree(pat);
    assert forall|x: int| 0 <= x < k implies !#[trigger] marked(pat, e, k, 0, 0, 0, x) by {}
}

/// An entry at or past the diagonal marks nothing.
proof fn lemma_skip_entry(
    pat: Seq<Seq<int>>,
    parents: Seq<isize>,
    l_nz: Seq<usize>,
    flags: Seq<usize>,
    k: int,
    t: int,
)
    requires
        pattern_wf(pat),
        0 <= k < pat.len(),
        0 <= t < pat[k].len(),
        pat[k][t] >= k,
        column_open(pat, parents, l_nz, flags, k, t, 0, 0),
    ensures
        column_open(pat, parents, l_nz, flags, k, t + 1, 0, 0),
{
    let e = etree(pat);
    assert forall|x: int| 0 <= x < k implies #[trigger] marked(pat, e, k, t + 1, 0, 0, x)
        == marked(pat, e, k, t, 0, 0, x) by {
        lemma_seen_next(pat, e, k, t, x);
    }
}

/// Starting to climb from entry `t` marks nothing new.
proof fn lemma_start_climb(
    pat: Seq<Seq<int>>,
    parents: Seq<isize>,
    l_nz: Seq<usize>,
    flags: Seq<usize>,
    k: int,
    t: int,
    r: int,
)
    requires
        0 <= r,
        column_open(pat, parents, l_nz, flags, k, t, 0, 0),
    ensures
        column_open(pat, parents, l_nz, flags, k, t, r, r),
{
    let e = etree(pat);
    assert forall|x: int| 0 <= x < k implies #[trigger] marked(pat, e, k, t, r, r, x) == marked(
        pat,
        e,
        k,
        t,
        0,
        0,
        x,
    ) by {}
}

/// What is known of an unmarked node `i < k` on the path of entry `t`: its
/// parent lies at `k` or below, and the array holds the parent already unless
/// the parent is `k`.
proof fn lemma_climb_node(
    pat: Seq<Seq<int>>,
    parents: Seq<isize>,
    l_nz: Seq<usize>,
    flags: Seq<usize>,
    k: int,
    t: int,
    i: int,
)
    requires
        pattern_wf(pat),
        0 <= k < pat.len(),
        0 <= t < pat[k].len(),
        pat[k][t] <= i < k,
        reaches(etree(pat), pat[k][t], i),
        column_open(pat, parents, l_nz, flags, k, t, pat[k][t], i),
        flags[i] != k,
    ensures
        i < etree(pat)[i] <= k,
        parents[i] as int == (if etree(pat)[i] < k {
            etree(pat)[i]
        } else {
            -1
        }),
        l_nz[i] as int == factor_col(pat, etree(pat), i, k).len(),
        l_nz[i] <= k,
        reaches(etree(pat), pat[k][t], etree(pat)[i]),
{
    let e = etree(pat);
    let r = pat[k][t];
    assert(!marked(pat, e, k, t, r, i, i));
    assert(leads_to(pat, e, k, t, i));
    lemma_row_climbs(pat, k, i);
    lemma_etree_len(pat);
    lemma_reaches_step(e, r, i);
    lemma_factor_col(pat, e, i, k);
}

/// Marking node `i` and moving on to its parent keeps the arrays in step.
proof fn lemma_climb_step(
    pat: Seq<Seq<int>>,
    parents: Seq<isize>,
    l_nz: Seq<usize>,
    flags: Seq<usize>,
    parents2: Seq<isize>,
    l_nz2: Seq<usize>,
    flags2: Seq<usize>,
    k: int,
    t: int,
    i: int,
)
    requires
        pattern_wf(pat),
        0 <= k < pat.len(),
        0 <= t < pat[k].len(),
        0 <= pat[k][t] <= i < k,
        reaches(etree(pat), pat[k][t], i),
        column_open(pat, parents, l_nz, flags, k, t, pat[k][t], i),
        flags[i] != k,
        i < etree(pat)[i] <= k,
        parents.len() == pat.len(),
        l_nz.len() == pat.len(),
        flags.len() == pat.len(),
        parents2 == parents.update(i, etree(pat)[i] as isize),
        etree(pat)[i] as isize as int == etree(pat)[i],
        l_nz2 == l_nz.update(i, (l_nz[i] + 1) as usize),
        l_nz[i] <= k,
        k < usize::MAX,
        flags2 == flags.update(i, k as usize),
    ensures
        column_open(pat, parents2, l_nz2, flags2, k, t, pat[k][t], etree(pat)[i]),
{
    let e = etree(pat);
    let r = pat[k][t];
    assert(!marked(pat, e, k, t, r, i, i));
    assert forall|x: int| 0 <= x < k implies #[trigger] marked(pat, e, k, t, r, e[i], x) == (
    marked(pat, e, k, t, r, i, x) || x == i) by {
        if r <= x < e[i] && reaches(e, r, x) && x >= i {
            lemma_reaches_linear(e, r, i, x);
        }
    }
}

/// When the climb from entry `t` meets a marked node, or column `k` itself,
/// the marked nodes are those seen from the entries before `t + 1`.
proof fn lemma_end_climb(
    pat: Seq<Seq<int>>,
    parents: Seq<isize>,
    l_nz: Seq<usize>,
    flags: Seq<usize>,
    k: int,
    t: int,
    i: int,
)
    requires
        pattern_wf(pat),
        0 <= k < pat.len(),
        0 <= t < pat[k].len(),
        0 <= pat[k][t] <= i <= k,
        reaches(etree(pat), pat[k][t], i),
        column_open(pat, parents, l_nz, flags, k, t, pat[k][t], i),
        flags[i] == k,
    ensures
        column_open(pat, parents, l_nz, flags, k, t + 1, 0, 0),
{
    let e = etree(pat);
    let r = pat[k][t];
    assert forall|x: int| 0 <= x < k implies #[trigger] marked(pat, e, k, t + 1, 0, 0, x)
        == marked(pat, e, k, t, r, i, x) by {
        lemma_seen_next(pat, e, k, t, x);
        if leads_to(pat, e, k, t, x) && x >= i {
            assert(i < k);
            assert(marked(pat, e, k, t, r, i, i));
            assert(seen(pat, e, k, t, i));
            let s = choose|s: int|
                0 <= s < t && s < pat[k].len() && #[trigger] leads_to(pat, e, k, s, i);
            lemma_reaches_linear(e, r, i, x);
            lemma_reaches_trans(e, pat[k][s], i, x);
            assert(leads_to(pat, e, k, s, x));
            assert(seen(pat, e, k, t, x));
        }
    }
}

/// Once every entry of column `k` has been followed, the arrays are ready
/// for column `k + 1`.
proof fn lemma_close_column(
    pat: Seq<Seq<int>>,
    parents: Seq<isize>,
    l_nz: Seq<usize>,
    flags: Seq<usize>,
    k: int,
)
    requires
        pattern_wf(pat),
        0 <= k < pat.len(),
        column_open(pat, parents, l_nz, flags, k, pat[k].len() as int, 0, 0),
    ensures
        columns_done(pat, parents, l_nz, flags, k + 1),
{
    let e = etree(pat);
    let t = pat[k].len() as int;
    assert forall|x: int| 0 <= x < k + 1 implies {
        &&& parents[x] as int == (if e[x] != -1 && e[x] < k + 1 {
            e[x]
        } else {
            -1
        })
        &&& l_nz[x] as int == factor_col(pat, e, x, k + 1).len()
        &&& flags[x] < k + 1
    } by {
        lemma_etree_parent(pat, x);
        if x < k {
            let m = marked(pat, e, k, t, 0, 0, x);
            assert(m == in_row(pat, e, k, x)) by {
                if in_row(pat, e, k, x) {
                    let s = choose|s: int|
                        0 <= s < pat[k].len() && #[trigger] leads_to(pat, e, k, s, x);
                    assert(seen(pat, e, k, t, x));
                }
            }
            if m {
                lemma_row_climbs(pat, k, x);
            }
        } else {
            lemma_factor_col_empty(pat, e, k, k + 1);
        }
    }
}

/// Computes the structure of the factor of `P A Pt`: the elimination tree in
/// `parents` (with `-1` for a root), the number of entries below the diagonal
/// of each column in `l_nz`, and their running totals in `l_colptr`. Only the
/// pattern of the matrix is read, and each row index is compared with the
/// column in the permuted numbering.
///
/// With `CheckSymmetry`, a matrix that differs from its transpose is refused
/// before anything is written.
///
/// The dimension has to fit in `isize`, since `parents` holds columns, and
/// the number of entries of the factor in `usize`, since `l_colptr` holds it;
/// `lemma_factor_nnz_bound` bounds that number by the square of the
/// dimension.
pub fn ldl_symbolic<N: PartialEq>(
    mat: &CsMat<N>,
    perm: &Permutation,
    l_colptr: &mut [usize],
    parents: &mut [isize],
    l_nz: &mut [usize],
    flag_workspace: &mut [usize],
    check_symmetry: SymmetryCheck,
) -> (res: Result<(), LdlError>)
    requires
        mat.wf(),
        perm.wf_for(mat.dim as nat),
        old(l_colptr)@.len() == mat.dim + 1,
        old(parents)@.len() == mat.dim,
        old(l_nz)@.len() == mat.dim,
        old(flag_workspace)@.len() == mat.dim,
        mat.dim <= isize::MAX,
        factor_nnz(mat.permuted_pattern(perm)) <= usize::MAX,
    ensures
        final(l_colptr)@.len() == old(l_colptr)@.len(),
        final(parents)@.len() == old(parents)@.len(),
        final(l_nz)@.len() == old(l_nz)@.len(),
        final(flag_workspace)@.len() == old(flag_workspace)@.len(),
        check_symmetry is DontCheckSymmetry ==> res is Ok,
        N::obeys_eq_spec() ==> (res is Err <==> check_symmetry is CheckSymmetry
            && !mat.symmetric()),
        res is Err ==> {
            &&& res == Err::<(), LdlError>(LdlError::AsymmetricInput)
            &&& check_symmetry is CheckSymmetry
            &&& final(l_colptr)@ == old(l_colptr)@
            &&& final(parents)@ == old(parents)@
            &&& final(l_nz)@ == old(l_nz)@
            &&& final(flag_workspace)@ == old(flag_workspace)@
        },
        res is Ok ==> {
            &&& usizes(final(l_colptr)@) == col_ptrs(mat.permuted_pattern(perm))
            &&& isizes(final(parents)@) == etree(mat.permuted_pattern(perm))
            &&& usizes(final(l_nz)@) == col_counts(mat.permuted_pattern(perm))
            &&& forall|i: int|
                0 <= i < mat.dim ==> {
                    let p = #[trigger] final(parents)@[i];
                    p == -1 || i < p < mat.dim
                }
        },
{
    match check_symmetry {
        SymmetryCheck::DontCheckSymmetry => {},
        SymmetryCheck::CheckSymmetry => {
            if !mat.is_symmetric() {
                return Err(LdlError::AsymmetricInput);
            }
        },
    }
    let n: usize = mat.rows();
    let ghost pat = mat.permuted_pattern(perm);
    let ghost e = etree(pat);
    proof {
        mat.lemma_permuted_pattern(perm);
        lemma_etree_len(pat);
    }
    let mut k: usize = 0;
    while k < n
        invariant
            k <= n,
            n == mat.dim,
            n <= isize::MAX,
            mat.wf(),
            perm.wf_for(n as nat),
            pat == mat.permuted_pattern(perm),
            pat.len() == n,
            pattern_wf(pat),
            e == etree(pat),
            e.len() == n,
            parents@.len() == n,
            l_nz@.len() == n,
            flag_workspace@.len() == n,
            columns_done(pat, parents@, l_nz@, flag_workspace@, k as int),
        decreases n - k,
    {
        flag_workspace[k] = k;
        parents[k] = -1;
        l_nz[k] = 0;
        let c: usize = perm.at_inv(k);
        proof {
            perm.lemma_round_trip(n as nat, k as int);
            mat.lemma_col_bounds(c as int);
            lemma_open_column(pat, parents@, l_nz@, flag_workspace@, k as int);
        }
        let start: usize = mat.indptr[c];
        let end: usize = mat.indptr[c + 1];
        let mut p: usize = start;
        while p < end
            invariant
                start <= p <= end <= mat.indices@.len(),
                start == mat.col_start(c as int),
                end == mat.col_end(c as int),
                c == perm.preimage(k as int),
                0 <= c < n,
                k < n,
                n == mat.dim,
                n <= isize::MAX,
                mat.wf(),
                perm.wf_for(n as nat),
                pat == mat.permuted_pattern(perm),
                pat.len() == n,
                pattern_wf(pat),
                e == etree(pat),
                e.len() == n,
                parents@.len() == n,
                l_nz@.len() == n,
                flag_workspace@.len() == n,
                pat[k as int].len() == end - start,
                column_open(pat, parents@, l_nz@, flag_workspace@, k as int, p - start, 0, 0),
            decreases end - p,
        {
            let ghost t: int = p - start;
            let row: usize = mat.indices[p];
            let mut i: usize = perm.at(row);
            proof {
                perm.lemma_round_trip(n as nat, row as int);
                assert(pat[k as int][t] == i);
            }
            if i < k {
                let ghost r: int = i as int;
                proof {
                    lemma_start_climb(pat, parents@, l_nz@, flag_workspace@, k as int, t, r);
                }
                while flag_workspace[i] != k
                    invariant
                        k < n,
                        n <= isize::MAX,
                        pat.len() == n,
                        pattern_wf(pat),
                        e == etree(pat),
                        e.len() == n,
                        parents@.len() == n,
                        l_nz@.len() == n,
                        flag_workspace@.len() == n,
                        0 <= t < pat[k as int].len(),
                        r == pat[k as int][t],
                        0 <= r <= i <= k,
                        reaches(e, r, i as int),
                        column_open(pat, parents@, l_nz@, flag_workspace@, k as int, t, r, i as int),
                    decreases k - i,
                {
                    proof {
                        lemma_climb_node(
                            pat,
                            parents@,
                            l_nz@,
                            flag_workspace@,
                            k as int,
                            t,
                            i as int,
                        );
                    }
                    let ghost parents0 = parents@;
                    let ghost l_nz0 = l_nz@;
                    let ghost flags0 = flag_workspace@;
                    if parents[i] == -1 {
                        parents[i] = k as isize;
                    }
                    l_nz[i] = l_nz[i] + 1;
                    flag_workspace[i] = k;
                    let up: usize = parents[i] as usize;
                    proof {
                        assert(parents@ =~= parents0.update(i as int, e[i as int] as isize));
                        lemma_climb_step(
                            pat,
                            parents0,
                            l_nz0,
                            flags0,
                            parents@,
                            l_nz@,
                            flag_workspace@,
                            k as int,
                            t,
                            i as int,
                        );
                    }
                    i = up;
                }
                proof {
                    lemma_end_climb(pat, parents@, l_nz@, flag_workspace@, k as int, t, i as int);
                }
            } else {
                proof {
                    lemma_skip_entry(pat, parents@, l_nz@, flag_workspace@, k as int, t);
                }
            }
            p += 1;
        }
        proof {
            lemma_close_column(pat, parents@, l_nz@, flag_workspace@, k as int);
        }
        k += 1;
    }
    let mut prev: usize = 0;
    let mut c: usize = 0;
    while c < n
        invariant
            c <= n,
            n == mat.dim,
            pat.len() == n,
            pattern_wf(pat),
            e == etree(pat),
            l_colptr@.len() == n + 1,
            parents@.len() == n,
            l_nz@.len() == n,
            factor_nnz(pat) <= usize::MAX,
            columns_done(pat, parents@, l_nz@, flag_workspace@, n as int),
            prev == col_ptr(pat, c as int),
            forall|b: int| 0 <= b < c ==> l_colptr@[b] == col_ptr(pat, b),
        decreases n - c,
    {
        proof {
            lemma_col_ptr_monotone(pat, c + 1, n as int);
            assert(col_ptr(pat, c + 1) == col_ptr(pat, c as int) + col_count(pat, c as int));
        }
        l_colptr[c] = prev;
        prev = prev + l_nz[c];
        c += 1;
    }
    l_colptr[n] = prev;
    proof {
        assert(usizes(l_colptr@) =~= col_ptrs(pat));
        assert forall|x: int| 0 <= x < n implies parents@[x] as int == e[x] && l_nz@[x] as int
            == col_count(pat, x) by {
            lemma_etree_parent(pat, x);
        }
        assert(isizes(parents@) =~= e);
        assert(usizes(l_nz@) =~= col_counts(pat));
        assert forall|i: int| 0 <= i < n implies {
            let p = #[trigger] parents@[i];
            p == -1 || i < p < n
        } by {
            lemma_etree_parent(pat, i);
        }
    }
    Ok(())
}

/// The structure of the factor depends on the pattern of the matrix and on
/// the permutation alone: two matrices with the same column pointers and row
/// indices have the same elimination tree, the same column counts and the
/// same column pointers of the factor, whatever their values are.
pub proof fn lemma_structure_ignores_values<N, M>(a: &CsMat<N>, b: &CsMat<M>, perm: &Permutation)
    requires
        a.dim == b.dim,
        a.indptr@ == b.indptr@,
        a.indices@ == b.indices@,
    ensures
        etree(a.permuted_pattern(perm)) == etree(b.permuted_pattern(perm)),
        col_counts(a.permuted_pattern(perm)) == col_counts(b.permuted_pattern(perm)),
        col_ptrs(a.permuted_pattern(perm)) == col_ptrs(b.permuted_pattern(perm)),
{
    let pa = a.permuted_pattern(perm);
    let pb = b.permuted_pattern(perm);
    assert forall|k: int| 0 <= k < pa.len() implies pa[k] == pb[k] by {
        assert(a.permuted_rows(perm, k) =~= b.permuted_rows(perm, k));
    }
    assert(pa =~= pb);
}

} // verus!
