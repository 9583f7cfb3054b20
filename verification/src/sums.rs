//! Finite sums in exact arithmetic, and that their order does not matter.

use vstd::prelude::*;
use vstd::std_specs::ops::AddSpec;
use vstd::std_specs::ops::MulSpec;
use crate::exact::{
    distributes, exact, lemma_add_assoc, lemma_add_comm, lemma_add_swap, lemma_add_zero,
    lemma_distribute, lemma_mul_zero,
};
use crate::scalar::Scalar;

verus! {

/// The sum of `g` over the elements of `s`, taken from left to right.
pub open spec fn seq_sum<N: Scalar>(g: spec_fn(int) -> N, s: Seq<int>, zero: N) -> N
    decreases s.len(),
{
    if s.len() == 0 {
        zero
    } else {
        seq_sum(g, s.drop_last(), zero).add_spec(g(s.last()))
    }
}

/// The sum of `g` over `0..m`, in increasing order.
pub open spec fn range_sum<N: Scalar>(g: spec_fn(int) -> N, m: int, zero: N) -> N
    decreases m,
{
    if m <= 0 {
        zero
    } else {
        range_sum(g, m - 1, zero).add_spec(g(m - 1))
    }
}

/// Two functions that agree below `m` have the same sum over `0..m`.
pub proof fn lemma_range_sum_agree<N: Scalar>(
    g: spec_fn(int) -> N,
    h: spec_fn(int) -> N,
    m: int,
    zero: N,
)
    requires
        forall|j: int| 0 <= j < m ==> #[trigger] g(j) == h(j),
    ensures
        range_sum(g, m, zero) == range_sum(h, m, zero),
    decreases m,
{
    if m > 0 {
        lemma_range_sum_agree(g, h, m - 1, zero);
    }
}

/// Terms that are `zero` from `m` on add nothing to a sum over a range.
pub proof fn lemma_range_sum_tail<N: Scalar>(g: spec_fn(int) -> N, m: int, m2: int, zero: N)
    requires
        exact(zero),
        0 <= m <= m2,
        forall|j: int| m <= j < m2 ==> #[trigger] g(j) == zero,
    ensures
        range_sum(g, m2, zero) == range_sum(g, m, zero),
    decreases m2 - m,
{
    if m < m2 {
        lemma_range_sum_tail(g, m, m2 - 1, zero);
        lemma_add_zero(zero, range_sum(g, m2 - 1, zero));
    }
}

/// Terms that are `zero` from position `t` on add nothing to a sum over a
/// sequence.
pub proof fn lemma_seq_sum_tail<N: Scalar>(g: spec_fn(int) -> N, s: Seq<int>, t: int, zero: N)
    requires
        exact(zero),
        0 <= t <= s.len(),
        forall|a: int| t <= a < s.len() ==> g(#[trigger] s[a]) == zero,
    ensures
        seq_sum(g, s, zero) == seq_sum(g, s.take(t), zero),
    decreases s.len() - t,
{
    if t < s.len() {
        let front = s.drop_last();
        assert forall|a: int| t <= a < front.len() implies g(#[trigger] front[a]) == zero by {
            assert(front[a] == s[a]);
        }
        lemma_seq_sum_tail(g, front, t, zero);
        assert(front.take(t) =~= s.take(t));
        assert(g(s[s.len() - 1]) == zero);
        lemma_add_zero(zero, seq_sum(g, front, zero));
    } else {
        assert(s.take(t) =~= s);
    }
}

/// Taking one element out of a sequence takes its term out of the sum.
pub proof fn lemma_seq_sum_remove<N: Scalar>(
    g: spec_fn(int) -> N,
    s: Seq<int>,
    a: int,
    zero: N,
)
    requires
        exact(zero),
        0 <= a < s.len(),
    ensures
        seq_sum(g, s, zero) == seq_sum(g, s.remove(a), zero).add_spec(g(s[a])),
    decreases s.len(),
{
    if a == s.len() - 1 {
        assert(s.remove(a) =~= s.drop_last());
    } else {
        let front = s.drop_last();
        lemma_seq_sum_remove(g, front, a, zero);
        assert(s.remove(a).drop_last() =~= front.remove(a));
        assert(s.remove(a).last() == s.last());
        let rest = seq_sum(g, front.remove(a), zero);
        lemma_add_assoc(zero, rest, g(s[a]), g(s.last()));
        lemma_add_comm(zero, g(s[a]), g(s.last()));
        lemma_add_assoc(zero, rest, g(s.last()), g(s[a]));
    }
}

/// The sum over a sequence of distinct numbers below `m` is the sum over
/// `0..m`, if the terms of the numbers that the sequence leaves out are
/// `zero`.
pub proof fn lemma_seq_sum_is_range_sum<N: Scalar>(
    g: spec_fn(int) -> N,
    s: Seq<int>,
    m: int,
    zero: N,
)
    requires
        exact(zero),
        0 <= m,
        s.no_duplicates(),
        forall|a: int| 0 <= a < s.len() ==> 0 <= #[trigger] s[a] < m,
        forall|j: int| 0 <= j < m && !s.contains(j) ==> #[trigger] g(j) == zero,
    ensures
        seq_sum(g, s, zero) == range_sum(g, m, zero),
    decreases m,
{
    if m == 0 {
        if s.len() > 0 {
            assert(0 <= s[0] < m);
        }
    } else if s.contains(m - 1) {
        let a = choose|a: int| 0 <= a < s.len() && s[a] == m - 1;
        let rest = s.remove(a);
        lemma_seq_sum_remove(g, s, a, zero);
        assert forall|b: int| 0 <= b < rest.len() implies 0 <= #[trigger] rest[b] < m - 1 by {
            if b < a {
                assert(rest[b] == s[b]);
            } else {
                assert(rest[b] == s[b + 1]);
            }
        }
        assert(rest.no_duplicates()) by {
            assert forall|b: int, c: int|
                0 <= b < rest.len() && 0 <= c < rest.len() && b != c implies rest[b] != rest[c] by {
                let b2 = if b < a {
                    b
                } else {
                    b + 1
                };
                let c2 = if c < a {
                    c
                } else {
                    c + 1
                };
                assert(rest[b] == s[b2] && rest[c] == s[c2]);
            }
        }
        assert forall|j: int| 0 <= j < m - 1 && !rest.contains(j) implies #[trigger] g(j) == zero by {
            if s.contains(j) {
                let b = choose|b: int| 0 <= b < s.len() && s[b] == j;
                if b < a {
                    assert(rest[b] == j);
                } else {
                    assert(rest[b - 1] == j);
                }
            }
        }
        lemma_seq_sum_is_range_sum(g, rest, m - 1, zero);
    } else {
        assert forall|a: int| 0 <= a < s.len() implies 0 <= #[trigger] s[a] < m - 1 by {
            assert(s.contains(s[a]));
        }
        lemma_seq_sum_is_range_sum(g, s, m - 1, zero);
        lemma_add_zero(zero, range_sum(g, m - 1, zero));
    }
}

/// The sum of two functions is the sum of their sums.
pub proof fn lemma_range_sum_add<N: Scalar>(
    f: spec_fn(int) -> N,
    g: spec_fn(int) -> N,
    m: int,
    zero: N,
)
    requires
        exact(zero),
    ensures
        range_sum(|j: int| f(j).add_spec(g(j)), m, zero) == range_sum(f, m, zero).add_spec(
            range_sum(g, m, zero),
        ),
    decreases m,
{
    let fg = |j: int| f(j).add_spec(g(j));
    if m > 0 {
        lemma_range_sum_add(f, g, m - 1, zero);
        lemma_add_swap(
            zero,
            range_sum(f, m - 1, zero),
            range_sum(g, m - 1, zero),
            f(m - 1),
            g(m - 1),
        );
        assert(fg(m - 1) == f(m - 1).add_spec(g(m - 1)));
    } else {
        lemma_add_zero(zero, zero);
    }
}

/// A factor on the left goes into a sum.
pub proof fn lemma_range_sum_scale_left<N: Scalar>(
    a: N,
    f: spec_fn(int) -> N,
    m: int,
    zero: N,
)
    requires
        exact(zero),
        distributes::<N>(),
    ensures
        a.mul_spec(range_sum(f, m, zero)) == range_sum(|j: int| a.mul_spec(f(j)), m, zero),
    decreases m,
{
    let af = |j: int| a.mul_spec(f(j));
    if m > 0 {
        lemma_range_sum_scale_left(a, f, m - 1, zero);
        lemma_distribute(a, range_sum(f, m - 1, zero), f(m - 1));
        assert(af(m - 1) == a.mul_spec(f(m - 1)));
    } else {
        lemma_mul_zero(zero, a);
    }
}

/// A factor on the right goes into a sum.
pub proof fn lemma_range_sum_scale_right<N: Scalar>(
    f: spec_fn(int) -> N,
    a: N,
    m: int,
    zero: N,
)
    requires
        exact(zero),
        distributes::<N>(),
    ensures
        range_sum(f, m, zero).mul_spec(a) == range_sum(|j: int| f(j).mul_spec(a), m, zero),
    decreases m,
{
    let fa = |j: int| f(j).mul_spec(a);
    if m > 0 {
        lemma_range_sum_scale_right(f, a, m - 1, zero);
        lemma_distribute(a, range_sum(f, m - 1, zero), f(m - 1));
        assert(fa(m - 1) == f(m - 1).mul_spec(a));
    } else {
        lemma_mul_zero(zero, a);
    }
}

/// A sum of zeros is `zero`.
pub proof fn lemma_range_sum_zero<N: Scalar>(f: spec_fn(int) -> N, m: int, zero: N)
    requires
        exact(zero),
        forall|j: int| 0 <= j < m ==> #[trigger] f(j) == zero,
    ensures
        range_sum(f, m, zero) == zero,
    decreases m,
{
    if m > 0 {
        lemma_range_sum_zero(f, m - 1, zero);
        lemma_add_zero(zero, zero);
    }
}

/// A sum with one term other than `zero` is that term.
pub proof fn lemma_range_sum_single<N: Scalar>(f: spec_fn(int) -> N, i: int, m: int, zero: N)
    requires
        exact(zero),
        0 <= i < m,
        forall|j: int| 0 <= j < m && j != i ==> #[trigger] f(j) == zero,
    ensures
        range_sum(f, m, zero) == f(i),
    decreases m,
{
    if i == m - 1 {
        lemma_range_sum_zero(f, m - 1, zero);
        lemma_add_zero(zero, f(i));
    } else {
        lemma_range_sum_single(f, i, m - 1, zero);
        lemma_add_zero(zero, f(i));
    }
}

/// A double sum can be taken in either order.
pub proof fn lemma_range_sum_exchange<N: Scalar>(
    f: spec_fn(int, int) -> N,
    m: int,
    n: int,
    zero: N,
)
    requires
        exact(zero),
    ensures
        range_sum(|j: int| range_sum(|k: int| f(j, k), n, zero), m, zero) == range_sum(
            |k: int| range_sum(|j: int| f(j, k), m, zero),
            n,
            zero,
        ),
    decreases m,
{
    let rows = |j: int| range_sum(|k: int| f(j, k), n, zero);
    let cols = |k: int| range_sum(|j: int| f(j, k), m, zero);
    if m > 0 {
        let cols_before = |k: int| range_sum(|j: int| f(j, k), m - 1, zero);
        let last = |k: int| f(m - 1, k);
        lemma_range_sum_exchange(f, m - 1, n, zero);
        lemma_range_sum_add(cols_before, last, n, zero);
        assert forall|k: int| 0 <= k < n implies #[trigger] cols(k) == cols_before(k).add_spec(
            last(k),
        ) by {
            let inner = |j: int| f(j, k);
            assert(inner(m - 1) == f(m - 1, k));
        }
        lemma_range_sum_agree(cols, |k: int| cols_before(k).add_spec(last(k)), n, zero);
        assert(range_sum(|j: int| range_sum(|k: int| f(j, k), n, zero), m - 1, zero) == range_sum(
            rows,
            m - 1,
            zero,
        )) by {
            lemma_range_sum_agree(
                |j: int| range_sum(|k: int| f(j, k), n, zero),
                rows,
                m - 1,
                zero,
            );
        }
        assert(rows(m - 1) == range_sum(last, n, zero)) by {
            lemma_range_sum_agree(|k: int| f(m - 1, k), last, n, zero);
        }
    } else {
        lemma_range_sum_zero(cols, n, zero);
    }
}

} // verus!
