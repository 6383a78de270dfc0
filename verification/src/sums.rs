//! Finite sums over integer ranges and the facts about them that the flow
//! proofs use.
use vstd::prelude::*;

verus! {

/// `f(0) + f(1) + ... + f(n - 1)`.
pub open spec fn sum_to(n: int, f: spec_fn(int) -> int) -> int
    decreases n,
{
    if n <= 0 {
        0
    } else {
        sum_to(n - 1, f) + f(n - 1)
    }
}

/// Sums of functions that agree on the range are equal.
pub proof fn lemma_sum_ext(n: int, f: spec_fn(int) -> int, g: spec_fn(int) -> int)
    requires
        forall|i: int| #![trigger f(i)] #![trigger g(i)] 0 <= i < n ==> f(i) == g(i),
    ensures
        sum_to(n, f) == sum_to(n, g),
    decreases n,
{
    if n > 0 {
        lemma_sum_ext(n - 1, f, g);
    }
}

/// Changing one term changes the sum by the difference of that term.
pub proof fn lemma_sum_point(n: int, f: spec_fn(int) -> int, g: spec_fn(int) -> int, k: int)
    requires
        0 <= k < n,
        forall|i: int| #![trigger f(i)] #![trigger g(i)] 0 <= i < n && i != k ==> f(i) == g(i),
    ensures
        sum_to(n, g) == sum_to(n, f) + g(k) - f(k),
    decreases n,
{
    if k == n - 1 {
        lemma_sum_ext(n - 1, f, g);
    } else {
        lemma_sum_point(n - 1, f, g, k);
    }
}

/// A pointwise bound gives a bound on the sums.
pub proof fn lemma_sum_le(n: int, f: spec_fn(int) -> int, g: spec_fn(int) -> int)
    requires
        forall|i: int| #![trigger f(i)] #![trigger g(i)] 0 <= i < n ==> f(i) <= g(i),
    ensures
        sum_to(n, f) <= sum_to(n, g),
    decreases n,
{
    if n > 0 {
        lemma_sum_le(n - 1, f, g);
    }
}

/// A pointwise bound that is strict at one index gives a strict bound on
/// the sums.
pub proof fn lemma_sum_lt(n: int, f: spec_fn(int) -> int, g: spec_fn(int) -> int, k: int)
    requires
        0 <= k < n,
        forall|i: int| #![trigger f(i)] #![trigger g(i)] 0 <= i < n ==> f(i) <= g(i),
        f(k) < g(k),
    ensures
        sum_to(n, f) < sum_to(n, g),
    decreases n,
{
    if k == n - 1 {
        lemma_sum_le(n - 1, f, g);
    } else {
        lemma_sum_lt(n - 1, f, g, k);
    }
}

/// Differences of consecutive values sum to the first minus the last.
pub proof fn lemma_sum_telescope(n: int, a: spec_fn(int) -> int)
    requires
        n >= 0,
    ensures
        sum_to(n, |i: int| a(i) - a(i + 1)) == a(0) - a(n),
    decreases n,
{
    if n > 0 {
        lemma_sum_telescope(n - 1, a);
    }
}

/// The sum of a pointwise sum is the sum of the sums.
pub proof fn lemma_sum_add(
    n: int,
    f: spec_fn(int) -> int,
    g: spec_fn(int) -> int,
    h: spec_fn(int) -> int,
)
    requires
        forall|i: int| #![trigger h(i)] 0 <= i < n ==> h(i) == f(i) + g(i),
    ensures
        sum_to(n, h) == sum_to(n, f) + sum_to(n, g),
    decreases n,
{
    if n > 0 {
        lemma_sum_add(n - 1, f, g, h);
    }
}

/// A sum of non-negative terms is non-negative.
pub proof fn lemma_sum_nonneg(n: int, f: spec_fn(int) -> int)
    requires
        forall|i: int| 0 <= i < n ==> #[trigger] f(i) >= 0,
    ensures
        sum_to(n, f) >= 0,
    decreases n,
{
    if n > 0 {
        lemma_sum_nonneg(n - 1, f);
    }
}

/// A sum of zeros is zero.
pub proof fn lemma_sum_zero(n: int, f: spec_fn(int) -> int)
    requires
        forall|i: int| 0 <= i < n ==> #[trigger] f(i) == 0,
    ensures
        sum_to(n, f) == 0,
    decreases n,
{
    if n > 0 {
        lemma_sum_zero(n - 1, f);
    }
}

/// A sum of `n` terms each at most `c` is at most `n * c`.
pub proof fn lemma_sum_bounded(n: int, f: spec_fn(int) -> int, c: int)
    requires
        n >= 0,
        forall|i: int| 0 <= i < n ==> #[trigger] f(i) <= c,
    ensures
        sum_to(n, f) <= n * c,
    decreases n,
{
    if n > 0 {
        lemma_sum_bounded(n - 1, f, c);
        assert(f(n - 1) <= c);
        assert((n - 1) * c + c == n * c) by (nonlinear_arith);
        assert(sum_to(n, f) == sum_to(n - 1, f) + f(n - 1));
    } else {
        assert(n * c == 0) by (nonlinear_arith)
            requires
                n == 0,
        ;
    }
}

/// The index paired with `i`: `i + 1` for even `i`, `i - 1` for odd `i`.
pub open spec fn twin(i: int) -> int {
    if i % 2 == 0 {
        i + 1
    } else {
        i - 1
    }
}

/// `i ^ 1` is the paired index.
pub proof fn lemma_xor_one(i: usize)
    ensures
        (i ^ 1usize) as int == twin(i as int),
{
    assert((i & 1usize) == (i % 2)) by (bit_vector);
    assert((i & 1usize) == 0usize ==> (i ^ 1usize) == i + 1) by (bit_vector);
    assert((i & 1usize) == 1usize ==> (i ^ 1usize) == i - 1) by (bit_vector);
}

/// Over an even range, terms that cancel in pairs sum to zero.
pub proof fn lemma_sum_pairs_cancel(n: int, f: spec_fn(int) -> int)
    requires
        n >= 0,
        n % 2 == 0,
        forall|i: int| #![trigger f(twin(i))] 0 <= i < n ==> f(twin(i)) == -f(i),
    ensures
        sum_to(n, f) == 0,
    decreases n,
{
    if n > 0 {
        assert(f(twin(n - 2)) == -f(n - 2));
        lemma_sum_pairs_cancel(n - 2, f);
        assert(sum_to(n - 1, f) == sum_to(n - 2, f) + f(n - 2));
    }
}

/// Number of entries of `s` that satisfy `p`.
pub open spec fn count_where<A>(s: Seq<A>, p: spec_fn(A) -> bool) -> nat
    decreases s.len(),
{
    if s.len() == 0 {
        0
    } else {
        count_where(s.drop_last(), p) + if p(s.last()) {
            1nat
        } else {
            0nat
        }
    }
}

/// Replacing an entry that satisfies `p` by one that does not lowers the
/// count by one.
pub proof fn lemma_count_update<A>(s: Seq<A>, p: spec_fn(A) -> bool, k: int, x: A)
    requires
        0 <= k < s.len(),
        p(s[k]),
        !p(x),
    ensures
        count_where(s.update(k, x), p) + 1 == count_where(s, p),
    decreases s.len(),
{
    let t = s.update(k, x);
    if k == s.len() - 1 {
        assert(t.drop_last() == s.drop_last());
    } else {
        assert(t.drop_last() == s.drop_last().update(k, x));
        lemma_count_update(s.drop_last(), p, k, x);
    }
}

/// The count is at most the length.
pub proof fn lemma_count_le<A>(s: Seq<A>, p: spec_fn(A) -> bool)
    ensures
        count_where(s, p) <= s.len(),
    decreases s.len(),
{
    if s.len() > 0 {
        lemma_count_le(s.drop_last(), p);
    }
}

/// If no entry satisfies `p` the count is zero; if one does it is positive.
pub proof fn lemma_count_pos<A>(s: Seq<A>, p: spec_fn(A) -> bool, k: int)
    requires
        0 <= k < s.len(),
        p(s[k]),
    ensures
        count_where(s, p) > 0,
    decreases s.len(),
{
    if k < s.len() - 1 {
        assert(s.drop_last()[k] == s[k]);
        lemma_count_pos(s.drop_last(), p, k);
    }
}

/// When every entry satisfies `p` the count is the length.
pub proof fn lemma_count_all<A>(s: Seq<A>, p: spec_fn(A) -> bool)
    requires
        forall|i: int| 0 <= i < s.len() ==> #[trigger] p(s[i]),
    ensures
        count_where(s, p) == s.len(),
    decreases s.len(),
{
    if s.len() > 0 {
        assert(p(s[s.len() - 1]));
        lemma_count_all(s.drop_last(), p);
    }
}


/// Replacing one entry changes the count by what the old and new entries
/// contribute.
pub proof fn lemma_count_replace<A>(s: Seq<A>, p: spec_fn(A) -> bool, k: int, x: A)
    requires
        0 <= k < s.len(),
    ensures
        count_where(s.update(k, x), p) + (if p(s[k]) {
            1int
        } else {
            0int
        }) == count_where(s, p) + (if p(x) {
            1int
        } else {
            0int
        }),
    decreases s.len(),
{
    let t = s.update(k, x);
    if k == s.len() - 1 {
        assert(t.drop_last() == s.drop_last());
    } else {
        assert(t.drop_last() == s.drop_last().update(k, x));
        lemma_count_replace(s.drop_last(), p, k, x);
    }
}

} // verus!
