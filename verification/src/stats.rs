//! The statistics reducer.
//!
//! Mean and population variance over the aggregate counts, as exact
//! fractions.  Floating point stays outside the verified core: callers turn
//! `(numerator, denominator)` into a float and, for the standard deviation,
//! take the square root.  On an empty sequence both fractions are zero by
//! policy — no data is a legitimate terminal state, not an error.
//!
//! The population variance of `x_1 .. x_n` is the mean of the squared
//! deviations from the mean, `(1/n) * sum((x_i - sum/n)^2)`, which over the
//! integers is exactly `(n * sum_sq - sum^2) / n^2`;
//! `lemma_variance_two_pass` proves that identity, and `lemma_cauchy` that
//! the numerator is never negative.

use vstd::prelude::*;

verus! {

/// Sum of the counts.
pub open spec fn spec_sum(s: Seq<u32>) -> int
    decreases s.len(),
{
    if s.len() == 0 {
        0
    } else {
        spec_sum(s.drop_last()) + s.last()
    }
}

/// Sum of the squared counts.
pub open spec fn spec_sum_sq(s: Seq<u32>) -> int
    decreases s.len(),
{
    if s.len() == 0 {
        0
    } else {
        spec_sum_sq(s.drop_last()) + s.last() * s.last()
    }
}

/// Sums of counts and squared counts are non-negative and bounded by the
/// count of terms times the largest term.
pub proof fn lemma_sum_bounds(s: Seq<u32>)
    ensures
        0 <= spec_sum(s) <= s.len() * 0xFFFF_FFFF,
        0 <= spec_sum_sq(s) <= s.len() * (0xFFFF_FFFE_0000_0001),
    decreases s.len(),
{
    if s.len() > 0 {
        lemma_sum_bounds(s.drop_last());
        let a = s.last() as int;
        assert(a * a <= 0xFFFF_FFFE_0000_0001) by (nonlinear_arith)
            requires
                0 <= a <= 0xFFFF_FFFF,
        ;
    }
}

/// For every `x`, the sum of `(x_i - x)^2` is non-negative, written without
/// division: `sum_sq + n*x^2 >= 2*sum*x`.
proof fn lemma_sq_dev_nonneg(s: Seq<u32>, x: int)
    ensures
        spec_sum_sq(s) + s.len() * (x * x) >= 2 * spec_sum(s) * x,
    decreases s.len(),
{
    if s.len() > 0 {
        let d = s.drop_last();
        let a = s.last() as int;
        lemma_sq_dev_nonneg(d, x);
        assert(a * a + x * x >= 2 * a * x) by (nonlinear_arith);
        assert(s.len() * (x * x) == d.len() * (x * x) + x * x) by (nonlinear_arith)
            requires
                s.len() == d.len() + 1,
        ;
        assert(2 * spec_sum(s) * x == 2 * spec_sum(d) * x + 2 * a * x) by (nonlinear_arith)
            requires
                spec_sum(s) == spec_sum(d) + a,
        ;
        assert(spec_sum_sq(s) + s.len() * (x * x) >= 2 * spec_sum(s) * x) by (nonlinear_arith)
            requires
                spec_sum_sq(s) == spec_sum_sq(d) + a * a,
                spec_sum(s) == spec_sum(d) + a,
                s.len() == d.len() + 1,
                spec_sum_sq(d) + d.len() * (x * x) >= 2 * spec_sum(d) * x,
                a * a + x * x >= 2 * a * x,
        ;
    } else {
        assert(s.len() * (x * x) == 0) by (nonlinear_arith)
            requires
                s.len() == 0,
        ;
        assert(2 * spec_sum(s) * x == 0) by (nonlinear_arith)
            requires
                spec_sum(s) == 0,
        ;
    }
}

/// The variance numerator is never negative: `n * sum_sq >= sum^2`.
pub proof fn lemma_cauchy(s: Seq<u32>)
    ensures
        s.len() * spec_sum_sq(s) >= spec_sum(s) * spec_sum(s),
    decreases s.len(),
{
    if s.len() > 0 {
        let d = s.drop_last();
        let a = s.last() as int;
        lemma_cauchy(d);
        lemma_sq_dev_nonneg(d, a);
        assert(s.len() * spec_sum_sq(s) >= spec_sum(s) * spec_sum(s)) by (nonlinear_arith)
            requires
                spec_sum_sq(s) == spec_sum_sq(d) + a * a,
                spec_sum(s) == spec_sum(d) + a,
                s.len() == d.len() + 1,
                d.len() * spec_sum_sq(d) >= spec_sum(d) * spec_sum(d),
                spec_sum_sq(d) + d.len() * (a * a) >= 2 * spec_sum(d) * a,
        ;
    }
}

/// Sum of the squared, `n`-scaled deviations from `c`: `sum((n*x_i - c)^2)`.
pub open spec fn spec_sum_sq_dev(s: Seq<u32>, c: int, n: int) -> int
    decreases s.len(),
{
    if s.len() == 0 {
        0
    } else {
        spec_sum_sq_dev(s.drop_last(), c, n) + (n * s.last() - c) * (n * s.last() - c)
    }
}

/// Expansion of the squared-deviation sum, for any centre `c` and scale `n`.
proof fn lemma_sum_sq_dev_expand(s: Seq<u32>, c: int, n: int)
    ensures
        spec_sum_sq_dev(s, c, n) == n * n * spec_sum_sq(s) - 2 * n * c * spec_sum(s) + s.len() * (
        c * c),
    decreases s.len(),
{
    if s.len() > 0 {
        let d = s.drop_last();
        let a = s.last() as int;
        lemma_sum_sq_dev_expand(d, c, n);
        assert((n * a - c) * (n * a - c) == n * n * (a * a) - 2 * n * c * a + c * c)
            by (nonlinear_arith);
        assert(n * n * spec_sum_sq(s) == n * n * spec_sum_sq(d) + n * n * (a * a))
            by (nonlinear_arith)
            requires
                spec_sum_sq(s) == spec_sum_sq(d) + a * a,
        ;
        assert(2 * n * c * spec_sum(s) == 2 * n * c * spec_sum(d) + 2 * n * c * a)
            by (nonlinear_arith)
            requires
                spec_sum(s) == spec_sum(d) + a,
        ;
        assert(s.len() * (c * c) == d.len() * (c * c) + c * c) by (nonlinear_arith)
            requires
                s.len() == d.len() + 1,
        ;
        assert(spec_sum_sq_dev(s, c, n) == spec_sum_sq_dev(d, c, n) + (n * a - c) * (n * a - c));
    }
}

/// The two-pass definition and the closed form agree: the sum of squared
/// deviations from the mean — each deviation written as the exact fraction
/// `(n*x_i - sum)/n` — has numerator `n * (n*sum_sq - sum^2)`, so the
/// population variance, their mean, is exactly `(n*sum_sq - sum^2) / n^2`.
pub proof fn lemma_variance_two_pass(s: Seq<u32>)
    ensures
        spec_sum_sq_dev(s, spec_sum(s), s.len() as int) == s.len() * (s.len() * spec_sum_sq(s)
            - spec_sum(s) * spec_sum(s)),
{
    let n = s.len() as int;
    let c = spec_sum(s);
    lemma_sum_sq_dev_expand(s, c, n);
    assert(n * n * spec_sum_sq(s) - 2 * n * c * c + n * (c * c) == n * (n * spec_sum_sq(s) - c
        * c)) by (nonlinear_arith);
}

/// Sum of the counts, exactly.
pub fn counts_sum(c: &Vec<u32>) -> (r: u64)
    requires
        c@.len() <= 0xFFFF_FFFF,
    ensures
        r == spec_sum(c@),
{
    let mut r: u64 = 0;
    let mut i: usize = 0;
    while i < c.len()
        invariant
            i <= c@.len(),
            c@.len() <= 0xFFFF_FFFF,
            r == spec_sum(c@.take(i as int)),
            r <= i * 0xFFFF_FFFF,
        decreases c@.len() - i,
    {
        proof {
            assert(c@.take(i as int + 1).drop_last() =~= c@.take(i as int));
            assert(c@.take(i as int + 1).last() == c@[i as int]);
        }
        r = r + c[i] as u64;
        i += 1;
    }
    proof {
        assert(c@.take(c@.len() as int) =~= c@);
    }
    r
}

/// Sum of the squared counts, exactly.
pub fn counts_sum_sq(c: &Vec<u32>) -> (r: u128)
    requires
        c@.len() <= 0xFFFF_FFFF,
    ensures
        r == spec_sum_sq(c@),
{
    let mut r: u128 = 0;
    let mut i: usize = 0;
    while i < c.len()
        invariant
            i <= c@.len(),
            c@.len() <= 0xFFFF_FFFF,
            r == spec_sum_sq(c@.take(i as int)),
            r <= i * (0xFFFF_FFFE_0000_0001),
        decreases c@.len() - i,
    {
        proof {
            assert(c@.take(i as int + 1).drop_last() =~= c@.take(i as int));
            assert(c@.take(i as int + 1).last() == c@[i as int]);
            let a = c@[i as int] as int;
            assert(a * a <= 0xFFFF_FFFE_0000_0001) by (nonlinear_arith)
                requires
                    0 <= a <= 0xFFFF_FFFF,
            ;
        }
        let v = c[i] as u128;
        r = r + v * v;
        i += 1;
    }
    proof {
        assert(c@.take(c@.len() as int) =~= c@);
    }
    r
}

/// The mean of the counts, as the exact fraction `sum / n`; `(0, 1)` — the
/// value zero — on an empty sequence.
pub fn mean_fraction(c: &Vec<u32>) -> (r: (u64, u64))
    requires
        c@.len() <= 0xFFFF_FFFF,
    ensures
        c@.len() == 0 ==> r == (0u64, 1u64),
        c@.len() > 0 ==> r.0 == spec_sum(c@) && r.1 == c@.len(),
{
    if c.len() == 0 {
        (0, 1)
    } else {
        (counts_sum(c), c.len() as u64)
    }
}

/// The population variance of the counts, as the exact fraction
/// `(n*sum_sq - sum^2) / n^2`; `(0, 1)` — the value zero — on an empty
/// sequence.  The population standard deviation is this fraction's square
/// root, taken by the caller.
pub fn variance_fraction(c: &Vec<u32>) -> (r: (u128, u128))
    requires
        c@.len() <= 0xFFFF_FFFF,
    ensures
        c@.len() == 0 ==> r == (0u128, 1u128),
        c@.len() > 0 ==> r.0 == c@.len() * spec_sum_sq(c@) - spec_sum(c@) * spec_sum(c@) && r.1
            == c@.len() * c@.len(),
{
    if c.len() == 0 {
        return (0, 1);
    }
    let n = c.len() as u128;
    let sum = counts_sum(c) as u128;
    let sum_sq = counts_sum_sq(c);
    proof {
        lemma_sum_bounds(c@);
        lemma_cauchy(c@);
        let nn = c@.len() as int;
        assert(nn * spec_sum_sq(c@) <= nn * (nn * (0xFFFF_FFFE_0000_0001)))
            by (nonlinear_arith)
            requires
                spec_sum_sq(c@) <= nn * (0xFFFF_FFFE_0000_0001),
                nn >= 0,
        ;
        assert(nn * (nn * (0xFFFF_FFFE_0000_0001)) <= 0xFFFF_FFFF * (0xFFFF_FFFF * (
        0xFFFF_FFFE_0000_0001))) by (nonlinear_arith)
            requires
                0 <= nn <= 0xFFFF_FFFF,
                spec_sum_sq(c@) >= 0,
        ;
        assert(nn * nn <= 0xFFFF_FFFE_0000_0001) by (nonlinear_arith)
            requires
                0 <= nn <= 0xFFFF_FFFF,
        ;
    }
    let num = n * sum_sq - sum * sum;
    let den = n * n;
    (num, den)
}

} // verus!
