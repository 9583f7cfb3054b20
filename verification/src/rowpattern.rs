//! The pattern of one row of the factor, as the factorization discovers it.
//!
//! Row `k` is found by following each entry of column `k` up the elimination
//! tree until a node is met that was visited for `k` before. The nodes met on
//! the way are new; written in front of those found earlier they give an order
//! in which every node comes before its ancestors.

use vstd::prelude::*;
use crate::etree::{
    etree, in_row, leads_to, lemma_etree_len, lemma_reaches_linear, lemma_reaches_step,
    lemma_reaches_trans, lemma_row_climbs, pattern_wf, reaches,
};

verus! {

/// Whether one of the first `t` entries of column `k` leads to `x`.
pub open spec fn seen(pat: Seq<Seq<int>>, parent: Seq<int>, k: int, t: int, x: int) -> bool {
    &&& 0 <= x < k
    &&& exists|s: int| 0 <= s < t && s < pat[k].len() && #[trigger] leads_to(pat, parent, k, s, x)
}

/// The nodes marked for column `k` while the path of entry `t`, which starts
/// at `r`, has been climbed as far as `i`: those seen from the entries before
/// `t`, and the part of the path below `i`.
pub open spec fn marked(
    pat: Seq<Seq<int>>,
    parent: Seq<int>,
    k: int,
    t: int,
    r: int,
    i: int,
    x: int,
) -> bool {
    seen(pat, parent, k, t, x) || (0 <= r <= x < i && x < k && reaches(parent, r, x))
}

/// The part of the path from `j` toward `k` that comes before the first node
/// listed in `visited`.
pub open spec fn fresh_path(parent: Seq<int>, j: int, k: int, visited: Seq<int>) -> Seq<int>
    decreases k - j,
{
    if 0 <= j < k && j < parent.len() && !visited.contains(j) {
        if j < parent[j] <= k {
            seq![j] + fresh_path(parent, parent[j], k, visited)
        } else {
            seq![j]
        }
    } else {
        Seq::empty()
    }
}

/// The nodes of row `k` found from the first `t` entries of column `k`, in the
/// order in which the factorization eliminates them.
pub open spec fn row_order(pat: Seq<Seq<int>>, parent: Seq<int>, k: int, t: int) -> Seq<int>
    decreases t,
{
    if t <= 0 {
        Seq::empty()
    } else {
        let before = row_order(pat, parent, k, t - 1);
        fresh_path(parent, pat[k][t - 1], k, before) + before
    }
}

/// The whole of row `k` in elimination order.
pub open spec fn row_pattern(pat: Seq<Seq<int>>, k: int) -> Seq<int> {
    row_order(pat, etree(pat), k, pat[k].len() as int)
}

/// The entries before `t + 1` lead where the entries before `t` lead, and
/// where entry `t` leads.
pub proof fn lemma_seen_next(pat: Seq<Seq<int>>, parent: Seq<int>, k: int, t: int, x: int)
    requires
        0 <= t < pat[k].len(),
    ensures
        seen(pat, parent, k, t + 1, x) == (seen(pat, parent, k, t, x) || (0 <= x < k && leads_to(
            pat,
            parent,
            k,
            t,
            x,
        ))),
{
    if seen(pat, parent, k, t + 1, x) {
        let s = choose|s: int|
            0 <= s < t + 1 && s < pat[k].len() && #[trigger] leads_to(pat, parent, k, s, x);
        if s < t {
            assert(seen(pat, parent, k, t, x));
        }
    }
    if seen(pat, parent, k, t, x) {
        let s = choose|s: int|
            0 <= s < t && s < pat[k].len() && #[trigger] leads_to(pat, parent, k, s, x);
        assert(0 <= s < t + 1 && leads_to(pat, parent, k, s, x));
    }
}

/// What the entries of a whole column lead to is the row of the factor.
pub proof fn lemma_seen_all(pat: Seq<Seq<int>>, parent: Seq<int>, k: int, x: int)
    requires
        0 <= k < pat.len(),
    ensures
        seen(pat, parent, k, pat[k].len() as int, x) == in_row(pat, parent, k, x),
{
    if in_row(pat, parent, k, x) {
        let s = choose|s: int| 0 <= s < pat[k].len() && #[trigger] leads_to(pat, parent, k, s, x);
        assert(seen(pat, parent, k, pat[k].len() as int, x));
    }
}

/// A node seen for column `k` has all its ancestors below `k` seen as well.
pub proof fn lemma_seen_closed_upward(pat: Seq<Seq<int>>, k: int, t: int, x: int, x2: int)
    requires
        seen(pat, etree(pat), k, t, x),
        reaches(etree(pat), x, x2),
        x2 < k,
    ensures
        seen(pat, etree(pat), k, t, x2),
{
    let e = etree(pat);
    let s = choose|s: int| 0 <= s < t && s < pat[k].len() && #[trigger] leads_to(pat, e, k, s, x);
    lemma_reaches_trans(e, pat[k][s], x, x2);
    assert(leads_to(pat, e, k, s, x2));
}

/// Before the climb from entry `t` begins, the marked nodes are the seen ones.
pub proof fn lemma_marked_start(pat: Seq<Seq<int>>, k: int, t: int, r: int)
    ensures
        forall|x: int|
            #[trigger] marked(pat, etree(pat), k, t, r, r, x) == seen(pat, etree(pat), k, t, x),
{
}

/// Climbing from `i` to its parent marks `i` and nothing else.
pub proof fn lemma_marked_step(pat: Seq<Seq<int>>, k: int, t: int, i: int)
    requires
        pattern_wf(pat),
        0 <= k < pat.len(),
        0 <= t < pat[k].len(),
        0 <= pat[k][t] <= i < k,
        reaches(etree(pat), pat[k][t], i),
        i < etree(pat)[i] <= k,
    ensures
        forall|x: int|
            #[trigger] marked(pat, etree(pat), k, t, pat[k][t], etree(pat)[i], x) == (marked(
                pat,
                etree(pat),
                k,
                t,
                pat[k][t],
                i,
                x,
            ) || x == i),
{
    let e = etree(pat);
    let r = pat[k][t];
    lemma_etree_len(pat);
    assert forall|x: int| #[trigger]
        marked(pat, e, k, t, r, e[i], x) == (marked(pat, e, k, t, r, i, x) || x == i) by {
        if r <= x < e[i] && reaches(e, r, x) && x >= i {
            lemma_reaches_linear(e, r, i, x);
        }
    }
}

/// When the climb from entry `t` stops at `k` or at a node seen before, the
/// marked nodes are the nodes seen from the entries before `t + 1`.
pub proof fn lemma_marked_end(pat: Seq<Seq<int>>, k: int, t: int, i: int)
    requires
        pattern_wf(pat),
        0 <= k < pat.len(),
        0 <= t < pat[k].len(),
        0 <= pat[k][t] <= i <= k,
        reaches(etree(pat), pat[k][t], i),
        i == k || seen(pat, etree(pat), k, t, i),
    ensures
        forall|x: int|
            #[trigger] seen(pat, etree(pat), k, t + 1, x) == marked(
                pat,
                etree(pat),
                k,
                t,
                pat[k][t],
                i,
                x,
            ),
{
    let e = etree(pat);
    let r = pat[k][t];
    assert forall|x: int| #[trigger]
        seen(pat, e, k, t + 1, x) == marked(pat, e, k, t, r, i, x) by {
        lemma_seen_next(pat, e, k, t, x);
        if 0 <= x < k && leads_to(pat, e, k, t, x) && x >= i {
            lemma_reaches_linear(e, r, i, x);
            lemma_seen_closed_upward(pat, k, t, i, x);
        }
    }
}

/// An entry at or past the diagonal lets nothing new be seen.
pub proof fn lemma_seen_skip(pat: Seq<Seq<int>>, k: int, t: int)
    requires
        0 <= t < pat[k].len(),
        pat[k][t] >= k,
    ensures
        forall|x: int|
            #[trigger] seen(pat, etree(pat), k, t + 1, x) == seen(pat, etree(pat), k, t, x),
{
    assert forall|x: int| #[trigger]
        seen(pat, etree(pat), k, t + 1, x) == seen(pat, etree(pat), k, t, x) by {
        lemma_seen_next(pat, etree(pat), k, t, x);
    }
}

/// The new part of a path: it holds the nodes of the path below `k` that were
/// not seen before, in increasing order.
pub proof fn lemma_fresh_path(pat: Seq<Seq<int>>, k: int, t: int, j: int, visited: Seq<int>)
    requires
        pattern_wf(pat),
        0 <= k < pat.len(),
        0 <= t < pat[k].len(),
        0 <= pat[k][t] <= j,
        reaches(etree(pat), pat[k][t], j),
        forall|x: int| visited.contains(x) <==> seen(pat, etree(pat), k, t, x),
    ensures
        forall|x: int| #[trigger]
            fresh_path(etree(pat), j, k, visited).contains(x) <==> (j <= x < k && reaches(
                etree(pat),
                j,
                x,
            ) && !seen(pat, etree(pat), k, t, x)),
        forall|a: int, b: int|
            0 <= a < b < fresh_path(etree(pat), j, k, visited).len() ==> fresh_path(
                etree(pat),
                j,
                k,
                visited,
            )[a] < fresh_path(etree(pat), j, k, visited)[b],
    decreases k - j,
{
    let e = etree(pat);
    let r = pat[k][t];
    let f = fresh_path(e, j, k, visited);
    lemma_etree_len(pat);
    if 0 <= j < k && !visited.contains(j) {
        assert(leads_to(pat, e, k, t, j));
        lemma_row_climbs(pat, k, j);
        lemma_reaches_step(e, r, j);
        let rest = fresh_path(e, e[j], k, visited);
        lemma_fresh_path(pat, k, t, e[j], visited);
        assert(f == seq![j] + rest);
        assert forall|x: int| #[trigger]
            f.contains(x) <==> (j <= x < k && reaches(e, j, x) && !seen(pat, e, k, t, x)) by {
            if f.contains(x) {
                let a = choose|a: int| 0 <= a < f.len() && f[a] == x;
                if a > 0 {
                    assert(rest[a - 1] == x);
                    assert(rest.contains(x));
                }
            }
            if j <= x < k && reaches(e, j, x) && !seen(pat, e, k, t, x) {
                if x == j {
                    assert(f[0] == x);
                } else {
                    assert(rest.contains(x));
                    let a = choose|a: int| 0 <= a < rest.len() && rest[a] == x;
                    assert(f[a + 1] == x);
                }
            }
        }
        assert forall|a: int, b: int| 0 <= a < b < f.len() implies f[a] < f[b] by {
            assert(rest.contains(rest[b - 1]));
            if a > 0 {
                assert(f[a] == rest[a - 1]);
            }
        }
    } else {
        assert(f.len() == 0);
        assert forall|x: int| #[trigger]
            f.contains(x) <==> (j <= x < k && reaches(e, j, x) && !seen(pat, e, k, t, x)) by {
            if j <= x < k && reaches(e, j, x) {
                lemma_seen_closed_upward(pat, k, t, j, x);
            }
        }
    }
}

/// The order found from the first `t` entries of column `k` lists the nodes
/// seen from these entries, each once.
pub proof fn lemma_row_order(pat: Seq<Seq<int>>, k: int, t: int)
    requires
        pattern_wf(pat),
        0 <= k < pat.len(),
        0 <= t <= pat[k].len(),
    ensures
        forall|x: int| #[trigger]
            row_order(pat, etree(pat), k, t).contains(x) <==> seen(pat, etree(pat), k, t, x),
        row_order(pat, etree(pat), k, t).no_duplicates(),
        row_order(pat, etree(pat), k, t).len() <= k,
    decreases t,
{
    let e = etree(pat);
    let order = row_order(pat, e, k, t);
    if t > 0 {
        let before = row_order(pat, e, k, t - 1);
        let r = pat[k][t - 1];
        let f = fresh_path(e, r, k, before);
        lemma_row_order(pat, k, t - 1);
        lemma_fresh_path(pat, k, t - 1, r, before);
        assert(order == f + before);
        assert forall|x: int| #[trigger] order.contains(x) <==> seen(pat, e, k, t, x) by {
            lemma_seen_next(pat, e, k, t - 1, x);
            if order.contains(x) {
                let a = choose|a: int| 0 <= a < order.len() && order[a] == x;
                if a < f.len() {
                    assert(f[a] == x);
                    assert(f.contains(x));
                } else {
                    assert(before[a - f.len()] == x);
                    assert(before.contains(x));
                }
            }
            if seen(pat, e, k, t, x) {
                if before.contains(x) {
                    let a = choose|a: int| 0 <= a < before.len() && before[a] == x;
                    assert(order[f.len() + a] == x);
                } else {
                    assert(f.contains(x));
                    let a = choose|a: int| 0 <= a < f.len() && f[a] == x;
                    assert(order[a] == x);
                }
            }
        }
        assert forall|a: int, b: int| 0 <= a < order.len() && 0 <= b < order.len() && a != b
            implies order[a] != order[b] by {
            if a < f.len() {
                assert(f.contains(f[a]));
            } else {
                assert(before.contains(before[a - f.len()]));
            }
            if b < f.len() {
                assert(f.contains(f[b]));
            } else {
                assert(before.contains(before[b - f.len()]));
            }
        }
    }
    assert forall|a: int| 0 <= a < order.len() implies 0 <= #[trigger] order[a] < k by {
        assert(order.contains(order[a]));
    }
    lemma_distinct_below(order, k);
}

/// In the order of a row no node comes after one of its ancestors.
pub proof fn lemma_row_order_topological(pat: Seq<Seq<int>>, k: int, t: int, a: int, b: int)
    requires
        pattern_wf(pat),
        0 <= k < pat.len(),
        0 <= t <= pat[k].len(),
        0 <= a < b < row_order(pat, etree(pat), k, t).len(),
    ensures
        !reaches(
            etree(pat),
            row_order(pat, etree(pat), k, t)[b],
            row_order(pat, etree(pat), k, t)[a],
        ),
    decreases t,
{
    let e = etree(pat);
    let order = row_order(pat, e, k, t);
    if t > 0 {
        let before = row_order(pat, e, k, t - 1);
        let r = pat[k][t - 1];
        let f = fresh_path(e, r, k, before);
        lemma_row_order(pat, k, t - 1);
        lemma_row_order(pat, k, t);
        lemma_fresh_path(pat, k, t - 1, r, before);
        assert(order == f + before);
        if a >= f.len() {
            lemma_row_order_topological(pat, k, t - 1, a - f.len(), b - f.len());
        } else if b < f.len() {
            assert(f[a] < f[b]);
        } else {
            let x = before[b - f.len()];
            assert(before.contains(x));
            assert(f.contains(f[a]));
            if reaches(e, x, f[a]) {
                lemma_seen_closed_upward(pat, k, t - 1, x, f[a]);
            }
        }
    }
}

/// An ancestor below `k` of a node of row `k` comes later in the order of
/// the row.
pub proof fn lemma_ancestor_comes_later(pat: Seq<Seq<int>>, k: int, a: int, x: int)
    requires
        pattern_wf(pat),
        0 <= k < pat.len(),
        0 <= a < row_pattern(pat, k).len(),
        reaches(etree(pat), row_pattern(pat, k)[a], x),
        x != row_pattern(pat, k)[a],
        x < k,
    ensures
        exists|b: int| a < b < row_pattern(pat, k).len() && row_pattern(pat, k)[b] == x,
{
    let e = etree(pat);
    let t = pat[k].len() as int;
    let order = row_pattern(pat, k);
    lemma_row_order(pat, k, t);
    assert(order.contains(order[a]));
    lemma_seen_closed_upward(pat, k, t, order[a], x);
    assert(order.contains(x));
    let b = choose|b: int| 0 <= b < order.len() && order[b] == x;
    if b < a {
        lemma_row_order_topological(pat, k, t, b, a);
    }
}

/// A sequence of distinct numbers from `0..k` has at most `k` elements.
pub proof fn lemma_distinct_below(s: Seq<int>, k: int)
    requires
        0 <= k,
        s.no_duplicates(),
        forall|a: int| 0 <= a < s.len() ==> 0 <= #[trigger] s[a] < k,
    ensures
        s.len() <= k,
{
    s.unique_seq_to_set();
    vstd::set_lib::lemma_int_range(0, k);
    assert(s.to_set().subset_of(vstd::set_lib::set_int_range(0, k))) by {
        assert forall|x: int| s.to_set().contains(x) implies vstd::set_lib::set_int_range(
            0,
            k,
        ).contains(x) by {
            let a = choose|a: int| 0 <= a < s.len() && s[a] == x;
            assert(0 <= s[a] < k);
        }
    }
    vstd::set_lib::lemma_len_subset(s.to_set(), vstd::set_lib::set_int_range(0, k));
}

} // verus!
