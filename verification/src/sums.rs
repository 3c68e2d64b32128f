//! Weighted sums over sequences, the common language of all tallies.

use vstd::prelude::*;

verus! {

/// The sum of `w(a)` over the elements `a` of `s`, with multiplicity.
pub open spec fn sum_by<A>(s: Seq<A>, w: spec_fn(A) -> int) -> int
    decreases s.len(),
{
    if s.len() == 0 {
        0
    } else {
        sum_by(s.drop_last(), w) + w(s.last())
    }
}

/// Two sequences are rearrangements of each other: every weighted sum agrees.
pub open spec fn same_sums<A>(a: Seq<A>, b: Seq<A>) -> bool {
    forall|w: spec_fn(A) -> int| #[trigger] sum_by(a, w) == sum_by(b, w)
}

/// The weight that counts the elements satisfying `p`.
pub open spec fn indicator<A>(p: spec_fn(A) -> bool) -> spec_fn(A) -> int {
    |a: A| if p(a) { 1int } else { 0int }
}

/// The weight `w` restricted to the elements satisfying `p`.
pub open spec fn gated<A>(p: spec_fn(A) -> bool, w: spec_fn(A) -> int) -> spec_fn(A) -> int {
    |a: A| if p(a) { w(a) } else { 0int }
}

pub proof fn lemma_sum_push<A>(s: Seq<A>, a: A, w: spec_fn(A) -> int)
    ensures
        sum_by(s.push(a), w) == sum_by(s, w) + w(a),
{
    assert(s.push(a).drop_last() =~= s);
}

pub proof fn lemma_sum_take_step<A>(s: Seq<A>, i: int, w: spec_fn(A) -> int)
    requires
        0 <= i < s.len(),
    ensures
        sum_by(s.take(i + 1), w) == sum_by(s.take(i), w) + w(s[i]),
{
    assert(s.take(i + 1).drop_last() =~= s.take(i));
}

pub proof fn lemma_sum_take_all<A>(s: Seq<A>, w: spec_fn(A) -> int)
    ensures
        sum_by(s.take(s.len() as int), w) == sum_by(s, w),
        sum_by(s.take(0), w) == 0,
{
    assert(s.take(s.len() as int) =~= s);
}

pub proof fn lemma_sum_concat<A>(a: Seq<A>, b: Seq<A>, w: spec_fn(A) -> int)
    ensures
        sum_by(a + b, w) == sum_by(a, w) + sum_by(b, w),
    decreases b.len(),
{
    if b.len() == 0 {
        assert(a + b =~= a);
    } else {
        assert((a + b).drop_last() =~= a + b.drop_last());
        lemma_sum_concat(a, b.drop_last(), w);
    }
}

/// Splitting a sequence at `i` splits every sum.
pub proof fn lemma_sum_split<A>(s: Seq<A>, i: int, w: spec_fn(A) -> int)
    requires
        0 <= i <= s.len(),
    ensures
        sum_by(s, w) == sum_by(s.take(i), w) + sum_by(s.skip(i), w),
{
    assert(s.take(i) + s.skip(i) =~= s);
    lemma_sum_concat(s.take(i), s.skip(i), w);
}

pub proof fn lemma_sum_skip_step<A>(s: Seq<A>, i: int, w: spec_fn(A) -> int)
    requires
        0 <= i < s.len(),
    ensures
        sum_by(s.skip(i), w) == w(s[i]) + sum_by(s.skip(i + 1), w),
{
    let t = s.skip(i);
    lemma_sum_split(t, 1, w);
    assert(t.skip(1) =~= s.skip(i + 1));
    lemma_sum_take_step(t, 0, w);
    lemma_sum_take_all(t, w);
}

/// A sum of non-negative weights is non-negative and dominates each term.
pub proof fn lemma_sum_nonneg<A>(s: Seq<A>, w: spec_fn(A) -> int)
    requires
        forall|k: int| 0 <= k < s.len() ==> w(#[trigger] s[k]) >= 0,
    ensures
        sum_by(s, w) >= 0,
        forall|k: int| 0 <= k < s.len() ==> w(#[trigger] s[k]) <= sum_by(s, w),
    decreases s.len(),
{
    if s.len() > 0 {
        let r = s.drop_last();
        assert forall|k: int| 0 <= k < r.len() implies w(#[trigger] r[k]) >= 0 by {
            assert(r[k] == s[k]);
        }
        lemma_sum_nonneg(r, w);
        assert forall|k: int| 0 <= k < s.len() implies w(#[trigger] s[k]) <= sum_by(s, w) by {
            if k < r.len() {
                assert(r[k] == s[k]);
            }
        }
    }
}

/// With non-negative weights, the sum over a prefix is at most the whole sum.
pub proof fn lemma_sum_prefix_le<A>(s: Seq<A>, i: int, w: spec_fn(A) -> int)
    requires
        0 <= i <= s.len(),
        forall|k: int| 0 <= k < s.len() ==> w(#[trigger] s[k]) >= 0,
    ensures
        0 <= sum_by(s.take(i), w) <= sum_by(s, w),
{
    lemma_sum_split(s, i, w);
    lemma_sum_nonneg(s.take(i), w);
    lemma_sum_nonneg(s.skip(i), w);
}

/// Pointwise smaller weights give a smaller sum.
pub proof fn lemma_sum_monotone<A>(s: Seq<A>, v: spec_fn(A) -> int, w: spec_fn(A) -> int)
    requires
        forall|k: int| 0 <= k < s.len() ==> v(#[trigger] s[k]) <= w(s[k]),
    ensures
        sum_by(s, v) <= sum_by(s, w),
    decreases s.len(),
{
    if s.len() > 0 {
        let r = s.drop_last();
        assert forall|k: int| 0 <= k < r.len() implies v(#[trigger] r[k]) <= w(r[k]) by {
            assert(r[k] == s[k]);
        }
        lemma_sum_monotone(r, v, w);
        assert(s.last() == s[s.len() - 1]);
    }
}

/// Pointwise equal weights give equal sums.
pub proof fn lemma_sum_pointwise<A>(s: Seq<A>, v: spec_fn(A) -> int, w: spec_fn(A) -> int)
    requires
        forall|k: int| 0 <= k < s.len() ==> v(#[trigger] s[k]) == w(s[k]),
    ensures
        sum_by(s, v) == sum_by(s, w),
{
    lemma_sum_monotone(s, v, w);
    lemma_sum_monotone(s, w, v);
}

/// A sum of weights that all vanish is zero.
pub proof fn lemma_sum_all_zero<A>(s: Seq<A>, w: spec_fn(A) -> int)
    requires
        forall|k: int| 0 <= k < s.len() ==> w(#[trigger] s[k]) == 0,
    ensures
        sum_by(s, w) == 0,
    decreases s.len(),
{
    if s.len() > 0 {
        let r = s.drop_last();
        assert forall|k: int| 0 <= k < r.len() implies w(#[trigger] r[k]) == 0 by {
            assert(r[k] == s[k]);
        }
        lemma_sum_all_zero(r, w);
        assert(s.last() == s[s.len() - 1]);
    }
}

/// Between pointwise ordered weights, equal sums force equal terms.
pub proof fn lemma_sum_tight<A>(s: Seq<A>, v: spec_fn(A) -> int, w: spec_fn(A) -> int)
    requires
        forall|k: int| 0 <= k < s.len() ==> v(#[trigger] s[k]) <= w(s[k]),
        sum_by(s, v) == sum_by(s, w),
    ensures
        forall|k: int| 0 <= k < s.len() ==> v(#[trigger] s[k]) == w(s[k]),
    decreases s.len(),
{
    if s.len() > 0 {
        let r = s.drop_last();
        assert forall|k: int| 0 <= k < r.len() implies v(#[trigger] r[k]) <= w(r[k]) by {
            assert(r[k] == s[k]);
        }
        lemma_sum_monotone(r, v, w);
        assert(s.last() == s[s.len() - 1]);
        lemma_sum_tight(r, v, w);
        assert forall|k: int| 0 <= k < s.len() implies v(#[trigger] s[k]) == w(s[k]) by {
            if k < r.len() {
                assert(r[k] == s[k]);
            }
        }
    }
}

/// A sum of equal terms is their number times the term.
pub proof fn lemma_sum_constant<A>(s: Seq<A>, w: spec_fn(A) -> int, val: int)
    requires
        forall|k: int| 0 <= k < s.len() ==> w(#[trigger] s[k]) == val,
    ensures
        sum_by(s, w) == s.len() * val,
    decreases s.len(),
{
    if s.len() > 0 {
        let r = s.drop_last();
        assert forall|k: int| 0 <= k < r.len() implies w(#[trigger] r[k]) == val by {
            assert(r[k] == s[k]);
        }
        lemma_sum_constant(r, w, val);
        assert(s.last() == s[s.len() - 1]);
        assert(r.len() * val + val == s.len() * val) by (nonlinear_arith)
            requires
                r.len() + 1 == s.len(),
        ;
    } else {
        assert(0 * val == 0);
    }
}

/// With non-negative weights, two terms at different places fit in the sum.
pub proof fn lemma_sum_two_terms<A>(s: Seq<A>, w: spec_fn(A) -> int, j: int, k: int)
    requires
        0 <= j < k < s.len(),
        forall|i: int| 0 <= i < s.len() ==> w(#[trigger] s[i]) >= 0,
    ensures
        w(s[j]) + w(s[k]) <= sum_by(s, w),
{
    lemma_sum_split(s, k, w);
    let a = s.take(k);
    let b = s.skip(k);
    assert forall|i: int| 0 <= i < a.len() implies w(#[trigger] a[i]) >= 0 by {
        assert(a[i] == s[i]);
    }
    assert forall|i: int| 0 <= i < b.len() implies w(#[trigger] b[i]) >= 0 by {
        assert(b[i] == s[i + k]);
    }
    lemma_sum_nonneg(a, w);
    lemma_sum_nonneg(b, w);
    assert(a[j] == s[j]);
    assert(b[0] == s[k]);
}

/// If every term but the one at `k` vanishes, the sum is that term.
pub proof fn lemma_sum_single<A>(s: Seq<A>, w: spec_fn(A) -> int, k: int)
    requires
        0 <= k < s.len(),
        forall|i: int| 0 <= i < s.len() && i != k ==> w(#[trigger] s[i]) == 0,
    ensures
        sum_by(s, w) == w(s[k]),
{
    lemma_sum_split(s, k, w);
    lemma_sum_skip_step(s, k, w);
    let a = s.take(k);
    let b = s.skip(k + 1);
    assert forall|i: int| 0 <= i < a.len() implies w(#[trigger] a[i]) == 0 by {
        assert(a[i] == s[i]);
    }
    assert forall|i: int| 0 <= i < b.len() implies w(#[trigger] b[i]) == 0 by {
        assert(b[i] == s[i + k + 1]);
    }
    lemma_sum_all_zero(a, w);
    lemma_sum_all_zero(b, w);
}

/// Summing over the elements kept by a filter is summing the gated weight.
pub proof fn lemma_sum_filter<A>(s: Seq<A>, p: spec_fn(A) -> bool, w: spec_fn(A) -> int)
    ensures
        sum_by(s.filter(p), w) == sum_by(s, gated(p, w)),
    decreases s.len(),
{
    reveal(Seq::filter);
    if s.len() > 0 {
        lemma_sum_filter(s.drop_last(), p, w);
        if p(s.last()) {
            lemma_sum_push(s.drop_last().filter(p), s.last(), w);
        }
    }
}

/// The number of kept elements is the sum of the indicator.
pub proof fn lemma_filter_len<A>(s: Seq<A>, p: spec_fn(A) -> bool)
    ensures
        s.filter(p).len() == sum_by(s, indicator(p)),
    decreases s.len(),
{
    reveal(Seq::filter);
    if s.len() > 0 {
        lemma_filter_len(s.drop_last(), p);
    }
}

/// Some element satisfies `p` exactly when the indicator of `p` has a
/// positive sum.
pub proof fn lemma_indicator_positive<A>(s: Seq<A>, p: spec_fn(A) -> bool)
    ensures
        sum_by(s, indicator(p)) >= 0,
        sum_by(s, indicator(p)) > 0 <==> exists|i: int| 0 <= i < s.len() && p(#[trigger] s[i]),
{
    let w = indicator(p);
    lemma_sum_nonneg(s, w);
    if exists|i: int| 0 <= i < s.len() && p(#[trigger] s[i]) {
        let i = choose|i: int| 0 <= i < s.len() && p(#[trigger] s[i]);
        assert(w(s[i]) == 1);
    } else {
        lemma_sum_all_zero(s, w);
    }
}

/// Being a rearrangement is symmetric.
pub proof fn lemma_same_sums_symmetric<A>(a: Seq<A>, b: Seq<A>)
    requires
        same_sums(a, b),
    ensures
        same_sums(b, a),
{
    assert forall|w: spec_fn(A) -> int| #[trigger] sum_by(b, w) == sum_by(a, w) by {
        assert(sum_by(a, w) == sum_by(b, w));
    }
}

/// Rearrangements have the same length.
pub proof fn lemma_same_sums_len<A>(a: Seq<A>, b: Seq<A>)
    requires
        same_sums(a, b),
    ensures
        a.len() == b.len(),
{
    let one = |x: A| 1int;
    lemma_sum_constant(a, one, 1);
    lemma_sum_constant(b, one, 1);
    assert(sum_by(a, one) == sum_by(b, one));
}

/// Rearrangements hold the same elements.
pub proof fn lemma_same_sums_witness<A>(a: Seq<A>, b: Seq<A>, p: spec_fn(A) -> bool)
    requires
        same_sums(a, b),
        exists|i: int| 0 <= i < a.len() && p(#[trigger] a[i]),
    ensures
        exists|i: int| 0 <= i < b.len() && p(#[trigger] b[i]),
{
    lemma_indicator_positive(a, p);
    lemma_indicator_positive(b, p);
    assert(sum_by(a, indicator(p)) == sum_by(b, indicator(p)));
}

/// Cauchy-Schwarz for sums: `len · Σ w² >= (Σ w)²`.
pub proof fn lemma_sum_squares_bound<A>(s: Seq<A>, w: spec_fn(A) -> int, w2: spec_fn(A) -> int)
    requires
        forall|k: int| 0 <= k < s.len() ==> w2(#[trigger] s[k]) == w(s[k]) * w(s[k]),
    ensures
        s.len() * sum_by(s, w2) >= sum_by(s, w) * sum_by(s, w),
        sum_by(s, w2) >= 0,
    decreases s.len(),
{
    if s.len() > 0 {
        let r = s.drop_last();
        assert forall|k: int| 0 <= k < r.len() implies w2(#[trigger] r[k]) == w(r[k]) * w(r[k]) by {
            assert(r[k] == s[k]);
        }
        lemma_sum_squares_bound(r, w, w2);
        let k = r.len() as int;
        let q = sum_by(r, w2);
        let t = sum_by(r, w);
        let x = w(s.last());
        assert(s.last() == s[s.len() - 1]);
        assert(w2(s.last()) == x * x);
        assert(x * x >= 0) by (nonlinear_arith);
        if k == 0 {
            assert(t == 0);
            assert(q == 0);
            assert((k + 1) * (q + x * x) >= (t + x) * (t + x)) by (nonlinear_arith)
                requires
                    k == 0,
                    t == 0,
                    q == 0,
            ;
        } else {
            assert(q + k * (x * x) - 2 * (t * x) >= 0) by (nonlinear_arith)
                requires
                    k > 0,
                    k * q >= t * t,
            {
                assert(k * (q + k * (x * x) - 2 * (t * x)) >= (t - k * x) * (t - k * x));
                assert((t - k * x) * (t - k * x) >= 0);
            }
            assert((k + 1) * (q + x * x) >= (t + x) * (t + x)) by (nonlinear_arith)
                requires
                    k * q >= t * t,
                    q + k * (x * x) - 2 * (t * x) >= 0,
            ;
        }
    } else {
        assert(0 * sum_by(s, w2) == 0);
    }
}

} // verus!
