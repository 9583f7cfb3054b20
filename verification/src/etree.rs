//! The elimination tree of a sparsity pattern and the pattern of its factor.
//!
//! A pattern is a sequence of columns, each the sequence of its row indices in
//! storage order. Only the entries above the diagonal matter here. Row `k` of
//! the factor holds column `i < k` exactly when `i` lies on the tree path that
//! starts at some entry of column `k` and climbs from child to parent. The
//! parent of `i` is the first row that holds column `i`.

use vstd::prelude::*;

verus! {

/// Every row index of the pattern names one of its columns.
pub open spec fn pattern_wf(pat: Seq<Seq<int>>) -> bool {
    forall|k: int, t: int|
        0 <= k < pat.len() && 0 <= t < pat[k].len() ==> 0 <= #[trigger] pat[k][t] < pat.len()
}

/// Whether climbing from `j` along `parent` links arrives at `i`. A link
/// counts only if it leads upward, and a root is marked by `-1`.
pub open spec fn reaches(parent: Seq<int>, j: int, i: int) -> bool
    decreases i - j,
{
    if j >= i {
        j == i
    } else if 0 <= j < parent.len() && j < parent[j] <= i {
        reaches(parent, parent[j], i)
    } else {
        false
    }
}

/// Whether entry `t` of column `k` sits on the tree path below or at `i`.
pub open spec fn leads_to(pat: Seq<Seq<int>>, parent: Seq<int>, k: int, t: int, i: int) -> bool {
    0 <= pat[k][t] <= i && reaches(parent, pat[k][t], i)
}

/// Whether row `k` of the factor has an entry in column `i`.
pub open spec fn in_row(pat: Seq<Seq<int>>, parent: Seq<int>, k: int, i: int) -> bool {
    &&& 0 <= i < k < pat.len()
    &&& exists|t: int| 0 <= t < pat[k].len() && #[trigger] leads_to(pat, parent, k, t, i)
}

/// The first row at or after `from` that has an entry in column `i`, or `-1`.
pub open spec fn first_row(pat: Seq<Seq<int>>, parent: Seq<int>, i: int, from: int) -> int
    decreases pat.len() - from,
{
    if from >= pat.len() {
        -1
    } else if in_row(pat, parent, from, i) {
        from
    } else {
        first_row(pat, parent, i, from + 1)
    }
}

/// The parents of the first `m` columns. The parent of a column depends only
/// on the parents of the columns before it.
pub open spec fn etree_prefix(pat: Seq<Seq<int>>, m: nat) -> Seq<int>
    decreases m,
{
    if m == 0 {
        Seq::empty()
    } else {
        let before = etree_prefix(pat, (m - 1) as nat);
        before.push(first_row(pat, before, m - 1, m as int))
    }
}

/// The elimination tree: for each column its parent, or `-1` for a root.
pub open spec fn etree(pat: Seq<Seq<int>>) -> Seq<int> {
    etree_prefix(pat, pat.len())
}

/// The rows below `upto` that have an entry in column `i` of the factor, in
/// increasing order.
pub open spec fn factor_col(pat: Seq<Seq<int>>, parent: Seq<int>, i: int, upto: int) -> Seq<int>
    decreases upto,
{
    if upto <= 0 {
        Seq::empty()
    } else {
        let before = factor_col(pat, parent, i, upto - 1);
        if in_row(pat, parent, upto - 1, i) {
            before.push(upto - 1)
        } else {
            before
        }
    }
}

/// The number of entries below the diagonal in column `i` of the factor.
pub open spec fn col_count(pat: Seq<Seq<int>>, i: int) -> int {
    factor_col(pat, etree(pat), i, pat.len() as int).len() as int
}

/// The number of entries below the diagonal in the columns before `c`.
pub open spec fn col_ptr(pat: Seq<Seq<int>>, c: int) -> int
    decreases c,
{
    if c <= 0 {
        0
    } else {
        col_ptr(pat, c - 1) + col_count(pat, c - 1)
    }
}

/// The number of entries below the diagonal in the whole factor.
pub open spec fn factor_nnz(pat: Seq<Seq<int>>) -> int {
    col_ptr(pat, pat.len() as int)
}

/// The column pointers of the factor: `n + 1` running totals of the counts.
pub open spec fn col_ptrs(pat: Seq<Seq<int>>) -> Seq<int> {
    Seq::new(pat.len() + 1, |c: int| col_ptr(pat, c))
}

/// The per-column counts of the factor.
pub open spec fn col_counts(pat: Seq<Seq<int>>) -> Seq<int> {
    Seq::new(pat.len(), |i: int| col_count(pat, i))
}

/// The position of the `t`-th entry of column `i` in the factor's arrays.
pub open spec fn slot(pat: Seq<Seq<int>>, i: int, t: int) -> int {
    col_ptr(pat, i) + t
}

/// The last column before `c` that begins at or before position `p`.
pub open spec fn col_of_slot(pat: Seq<Seq<int>>, p: int, c: int) -> int
    decreases c,
{
    if c <= 0 {
        0
    } else if col_ptr(pat, c - 1) <= p {
        c - 1
    } else {
        col_of_slot(pat, p, c - 1)
    }
}

/// The row indices of the factor, column after column, each column in
/// increasing order.
pub open spec fn factor_rows(pat: Seq<Seq<int>>) -> Seq<int> {
    Seq::new(
        factor_nnz(pat) as nat,
        |p: int|
            {
                let i = col_of_slot(pat, p, pat.len() as int);
                factor_col(pat, etree(pat), i, pat.len() as int)[p - col_ptr(pat, i)]
            },
    )
}

/// The values of an index array as mathematical integers.
pub open spec fn usizes(s: Seq<usize>) -> Seq<int> {
    Seq::new(s.len(), |i: int| s[i] as int)
}

/// The values of a parent array as mathematical integers.
pub open spec fn isizes(s: Seq<isize>) -> Seq<int> {
    Seq::new(s.len(), |i: int| s[i] as int)
}

// ----------------------------------------------------------------------
// Paths
// ----------------------------------------------------------------------

/// A path never leads downward.
pub proof fn lemma_reaches_le(parent: Seq<int>, j: int, i: int)
    requires
        reaches(parent, j, i),
    ensures
        j <= i,
{
}

/// Two paths laid end to end make a path.
pub proof fn lemma_reaches_trans(parent: Seq<int>, a: int, b: int, c: int)
    requires
        reaches(parent, a, b),
        reaches(parent, b, c),
    ensures
        reaches(parent, a, c),
    decreases b - a,
{
    if a < b {
        lemma_reaches_le(parent, b, c);
        lemma_reaches_trans(parent, parent[a], b, c);
    }
}

/// Of two nodes above `a` on its path, the lower one leads to the higher one.
pub proof fn lemma_reaches_linear(parent: Seq<int>, a: int, b: int, c: int)
    requires
        reaches(parent, a, b),
        reaches(parent, a, c),
        b <= c,
    ensures
        reaches(parent, b, c),
    decreases b - a,
{
    if a < b {
        lemma_reaches_linear(parent, parent[a], b, c);
    }
}

/// A path that arrives at `i` goes on to the parent of `i`.
pub proof fn lemma_reaches_step(parent: Seq<int>, j: int, i: int)
    requires
        reaches(parent, j, i),
        0 <= i < parent.len(),
        i < parent[i],
    ensures
        reaches(parent, j, parent[i]),
{
    assert(reaches(parent, i, parent[i])) by {
        assert(reaches(parent, parent[i], parent[i]));
    }
    lemma_reaches_trans(parent, j, i, parent[i]);
}

/// Whether a path arrives at `i` depends only on the links of the nodes
/// before `i`.
pub proof fn lemma_reaches_agree(links: Seq<int>, others: Seq<int>, j: int, i: int)
    requires
        0 <= j,
        i <= links.len(),
        i <= others.len(),
        forall|x: int| 0 <= x < i ==> links[x] == others[x],
    ensures
        reaches(links, j, i) == reaches(others, j, i),
    decreases i - j,
{
    if j < i {
        if j < links[j] <= i {
            lemma_reaches_agree(links, others, links[j], i);
        }
    }
}

/// Whether a row holds column `i` depends only on the links of the nodes
/// before `i`.
pub proof fn lemma_in_row_agree(pat: Seq<Seq<int>>, links: Seq<int>, others: Seq<int>, k: int, i: int)
    requires
        pattern_wf(pat),
        0 <= i <= links.len(),
        i <= others.len(),
        forall|x: int| 0 <= x < i ==> links[x] == others[x],
    ensures
        in_row(pat, links, k, i) == in_row(pat, others, k, i),
{
    if 0 <= i < k < pat.len() {
        assert forall|t: int| 0 <= t < pat[k].len() implies leads_to(pat, links, k, t, i)
            == leads_to(pat, others, k, t, i) by {
            lemma_reaches_agree(links, others, pat[k][t], i);
        }
    }
}

/// The first row that holds column `i` depends only on the links of the
/// nodes before `i`.
pub proof fn lemma_first_row_agree(
    pat: Seq<Seq<int>>,
    links: Seq<int>,
    others: Seq<int>,
    i: int,
    from: int,
)
    requires
        pattern_wf(pat),
        0 <= i <= links.len(),
        i <= others.len(),
        forall|x: int| 0 <= x < i ==> links[x] == others[x],
    ensures
        first_row(pat, links, i, from) == first_row(pat, others, i, from),
    decreases pat.len() - from,
{
    if from < pat.len() {
        lemma_in_row_agree(pat, links, others, from, i);
        lemma_first_row_agree(pat, links, others, i, from + 1);
    }
}

/// What `first_row` returns: the least row from `from` on that holds column
/// `i`, or `-1` when there is none.
pub proof fn lemma_first_row(pat: Seq<Seq<int>>, parent: Seq<int>, i: int, from: int)
    requires
        0 <= from,
    ensures
        ({
            let r = first_row(pat, parent, i, from);
            &&& r == -1 || (from <= r < pat.len() && in_row(pat, parent, r, i))
            &&& forall|k: int| from <= k && (k < r || r == -1) ==> !in_row(pat, parent, k, i)
        }),
    decreases pat.len() - from,
{
    if from < pat.len() {
        lemma_first_row(pat, parent, i, from + 1);
    }
}

// ----------------------------------------------------------------------
// The tree
// ----------------------------------------------------------------------

/// A prefix of the tree has one link for each of its columns.
pub proof fn lemma_etree_prefix_len(pat: Seq<Seq<int>>, m: nat)
    ensures
        etree_prefix(pat, m).len() == m,
    decreases m,
{
    if m > 0 {
        lemma_etree_prefix_len(pat, (m - 1) as nat);
    }
}

/// A longer prefix of the tree keeps the links of a shorter one.
pub proof fn lemma_etree_prefix_stable(pat: Seq<Seq<int>>, m: nat, m2: nat, i: int)
    requires
        0 <= i < m <= m2,
    ensures
        etree_prefix(pat, m2)[i] == etree_prefix(pat, m)[i],
    decreases m2,
{
    lemma_etree_prefix_len(pat, m);
    if m < m2 {
        lemma_etree_prefix_len(pat, (m2 - 1) as nat);
        lemma_etree_prefix_stable(pat, m, (m2 - 1) as nat, i);
    }
}

/// The tree has one link for each column.
pub proof fn lemma_etree_len(pat: Seq<Seq<int>>)
    ensures
        etree(pat).len() == pat.len(),
{
    lemma_etree_prefix_len(pat, pat.len());
}

/// The parent of a column is the first row of the factor that holds the
/// column, and `-1` when no row does.
pub proof fn lemma_etree_parent(pat: Seq<Seq<int>>, i: int)
    requires
        pattern_wf(pat),
        0 <= i < pat.len(),
    ensures
        etree(pat).len() == pat.len(),
        etree(pat)[i] == -1 || i < etree(pat)[i] < pat.len(),
        etree(pat)[i] != -1 ==> in_row(pat, etree(pat), etree(pat)[i], i),
        forall|k: int|
            (k < etree(pat)[i] || etree(pat)[i] == -1) ==> !in_row(pat, etree(pat), k, i),
{
    let e = etree(pat);
    let before = etree_prefix(pat, i as nat);
    lemma_etree_len(pat);
    lemma_etree_prefix_len(pat, i as nat);
    lemma_etree_prefix_len(pat, (i + 1) as nat);
    lemma_etree_prefix_stable(pat, (i + 1) as nat, pat.len(), i);
    assert(e[i] == first_row(pat, before, i, i + 1));
    assert forall|x: int| 0 <= x < i implies before[x] == e[x] by {
        lemma_etree_prefix_stable(pat, i as nat, pat.len(), x);
    }
    lemma_first_row_agree(pat, before, e, i, i + 1);
    lemma_first_row(pat, e, i, i + 1);
}

/// A column held by row `k` has its parent at `k` or below, and a parent
/// below `k` is held by row `k` too.
pub proof fn lemma_row_climbs(pat: Seq<Seq<int>>, k: int, i: int)
    requires
        pattern_wf(pat),
        in_row(pat, etree(pat), k, i),
    ensures
        i < etree(pat)[i] <= k,
        etree(pat)[i] < k ==> in_row(pat, etree(pat), k, etree(pat)[i]),
{
    let e = etree(pat);
    lemma_etree_parent(pat, i);
    if e[i] < k {
        let t = choose|t: int| 0 <= t < pat[k].len() && #[trigger] leads_to(pat, e, k, t, i);
        lemma_reaches_step(e, pat[k][t], i);
        assert(leads_to(pat, e, k, t, e[i]));
    }
}

/// A row that holds a column is an ancestor of the column.
pub proof fn lemma_row_is_ancestor(pat: Seq<Seq<int>>, k: int, i: int)
    requires
        pattern_wf(pat),
        in_row(pat, etree(pat), k, i),
    ensures
        reaches(etree(pat), i, k),
    decreases k - i,
{
    let e = etree(pat);
    lemma_row_climbs(pat, k, i);
    lemma_etree_len(pat);
    if e[i] < k {
        lemma_row_is_ancestor(pat, k, e[i]);
    }
    assert(reaches(e, k, k));
    assert(reaches(e, e[i], k));
}

// ----------------------------------------------------------------------
// Columns of the factor
// ----------------------------------------------------------------------

/// The rows of a factor column below `upto` are the rows that hold the
/// column, each once, in increasing order.
pub proof fn lemma_factor_col(pat: Seq<Seq<int>>, parent: Seq<int>, i: int, upto: int)
    ensures
        factor_col(pat, parent, i, upto).len() <= if upto <= 0 {
            0
        } else {
            upto
        },
        forall|t: int|
            0 <= t < factor_col(pat, parent, i, upto).len() ==> {
                let k = #[trigger] factor_col(pat, parent, i, upto)[t];
                &&& i < k < upto
                &&& in_row(pat, parent, k, i)
                &&& factor_col(pat, parent, i, k).len() == t
            },
    decreases upto,
{
    if upto > 0 {
        lemma_factor_col(pat, parent, i, upto - 1);
    }
}

/// Raising the bound keeps the rows already listed.
pub proof fn lemma_factor_col_prefix(
    pat: Seq<Seq<int>>,
    parent: Seq<int>,
    i: int,
    upto: int,
    upto2: int,
)
    requires
        upto <= upto2,
    ensures
        factor_col(pat, parent, i, upto).len() <= factor_col(pat, parent, i, upto2).len(),
        forall|t: int|
            0 <= t < factor_col(pat, parent, i, upto).len() ==> factor_col(pat, parent, i, upto)[t]
                == factor_col(pat, parent, i, upto2)[t],
    decreases upto2 - upto,
{
    if upto < upto2 {
        lemma_factor_col_prefix(pat, parent, i, upto, upto2 - 1);
    }
}

/// A row that holds column `i` is listed at the position given by the number
/// of earlier rows that hold it.
pub proof fn lemma_factor_col_slot(pat: Seq<Seq<int>>, parent: Seq<int>, i: int, k: int, upto: int)
    requires
        in_row(pat, parent, k, i),
        k < upto,
    ensures
        factor_col(pat, parent, i, k).len() < factor_col(pat, parent, i, upto).len(),
        factor_col(pat, parent, i, upto)[factor_col(pat, parent, i, k).len() as int] == k,
{
    assert(factor_col(pat, parent, i, k + 1) == factor_col(pat, parent, i, k).push(k));
    lemma_factor_col_prefix(pat, parent, i, k + 1, upto);
}

/// A column has no entry in the rows up to its own.
pub proof fn lemma_factor_col_empty(pat: Seq<Seq<int>>, parent: Seq<int>, i: int, upto: int)
    requires
        upto <= i + 1,
    ensures
        factor_col(pat, parent, i, upto).len() == 0,
{
    lemma_factor_col(pat, parent, i, upto);
    if factor_col(pat, parent, i, upto).len() > 0 {
        let k = factor_col(pat, parent, i, upto)[0];
        assert(i < k < upto);
    }
}

/// The column pointers never decrease.
pub proof fn lemma_col_ptr_monotone(pat: Seq<Seq<int>>, a: int, b: int)
    requires
        0 <= a <= b,
    ensures
        0 <= col_ptr(pat, a) <= col_ptr(pat, b),
    decreases b,
{
    if b > 0 {
        if a < b {
            lemma_col_ptr_monotone(pat, a, b - 1);
        } else {
            lemma_col_ptr_monotone(pat, a - 1, b - 1);
        }
    }
}

/// A slot of column `i` lies inside the factor's arrays.
pub proof fn lemma_slot_in_bounds(pat: Seq<Seq<int>>, i: int, t: int)
    requires
        0 <= i < pat.len(),
        0 <= t < col_count(pat, i),
    ensures
        0 <= col_ptr(pat, i) + t < col_ptr(pat, i + 1) <= factor_nnz(pat),
{
    lemma_col_ptr_monotone(pat, 0, i);
    lemma_col_ptr_monotone(pat, i + 1, pat.len() as int);
}

/// Two different entries of the factor have different positions.
pub proof fn lemma_slots_differ(pat: Seq<Seq<int>>, i: int, t: int, i2: int, t2: int)
    requires
        0 <= i < pat.len(),
        0 <= i2 < pat.len(),
        0 <= t < col_count(pat, i),
        0 <= t2 < col_count(pat, i2),
        i != i2 || t != t2,
    ensures
        slot(pat, i, t) != slot(pat, i2, t2),
{
    if i < i2 {
        lemma_col_ptr_monotone(pat, i + 1, i2);
    }
    if i2 < i {
        lemma_col_ptr_monotone(pat, i2 + 1, i);
    }
}

/// Every position of the factor's arrays belongs to a column.
pub proof fn lemma_col_of_slot(pat: Seq<Seq<int>>, p: int, c: int)
    requires
        0 <= p < col_ptr(pat, c),
        0 <= c,
    ensures
        0 <= col_of_slot(pat, p, c) < c,
        col_ptr(pat, col_of_slot(pat, p, c)) <= p < col_ptr(pat, col_of_slot(pat, p, c) + 1),
    decreases c,
{
    if c > 0 && col_ptr(pat, c - 1) > p {
        lemma_col_of_slot(pat, p, c - 1);
    }
}

/// A position between the pointers of column `c` belongs to column `c`.
pub proof fn lemma_slot_column(pat: Seq<Seq<int>>, c: int, p: int)
    requires
        0 <= c < pat.len(),
        col_ptr(pat, c) <= p < col_ptr(pat, c + 1),
    ensures
        col_of_slot(pat, p, pat.len() as int) == c,
        0 <= p < factor_nnz(pat),
{
    let n = pat.len() as int;
    lemma_col_ptr_monotone(pat, 0, c);
    lemma_col_ptr_monotone(pat, c + 1, n);
    lemma_col_of_slot(pat, p, n);
    let i = col_of_slot(pat, p, n);
    if i < c {
        lemma_col_ptr_monotone(pat, i + 1, c);
    }
    if c < i {
        lemma_col_ptr_monotone(pat, c + 1, i);
    }
}

/// The factor has fewer than `n * n` entries below its diagonal.
pub proof fn lemma_factor_nnz_bound(pat: Seq<Seq<int>>)
    ensures
        0 <= factor_nnz(pat) <= pat.len() * pat.len(),
{
    lemma_col_ptr_bound(pat, pat.len() as int);
}

/// The columns before `c` hold at most `c * n` entries.
pub proof fn lemma_col_ptr_bound(pat: Seq<Seq<int>>, c: int)
    requires
        0 <= c,
    ensures
        0 <= col_ptr(pat, c) <= c * pat.len(),
    decreases c,
{
    if c > 0 {
        lemma_col_ptr_bound(pat, c - 1);
        lemma_factor_col(pat, etree(pat), c - 1, pat.len() as int);
        assert((c - 1) * pat.len() + pat.len() == c * pat.len()) by (nonlinear_arith);
    }
}

} // verus!
