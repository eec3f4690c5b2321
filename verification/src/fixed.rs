//! Fixed-point fractions at a scale of one billion, and the compound-growth
//! walk that the annuity payment formula is built on.

use vstd::prelude::*;
use vstd::arithmetic::div_mod::{
    lemma_div_is_ordered, lemma_div_multiples_vanish, lemma_fundamental_div_mod, lemma_mod_bound,
};

verus! {

/// Scale of every fixed-point fraction in this crate: values are carried in
/// parts per billion, so `SCALE` itself stands for the number one.
pub const SCALE: u64 = 1_000_000_000;

/// Product of two fixed-point fractions, truncated back down to the scale.
pub open spec fn fp_mul(a: int, b: int) -> int {
    (a * b) / (SCALE as int)
}

/// Fixed-point value of `(1 + rate)^n`: one unit compounded at the periodic
/// fraction `rate` over `n` periods.
pub open spec fn spec_growth(rate: int, n: nat) -> int
    decreases n,
{
    if n == 0 {
        SCALE as int
    } else {
        fp_mul(spec_growth(rate, (n - 1) as nat), SCALE + rate)
    }
}

/// Whether every step of the compounding walk up to `n` periods stays within
/// a `u64`.
pub open spec fn growth_fits(rate: int, n: nat) -> bool
    decreases n,
{
    if n == 0 {
        true
    } else {
        growth_fits(rate, (n - 1) as nat) && fp_mul(spec_growth(rate, (n - 1) as nat), SCALE + rate)
            <= u64::MAX
    }
}

/// Dividing by a positive `d` can only give a value at most `b` when the
/// dividend is at most `b * d`.
pub proof fn lemma_div_le(a: int, b: int, d: int)
    requires
        0 <= a,
        0 <= b,
        0 < d,
        a <= b * d,
    ensures
        a / d <= b,
{
    assert(b * d == d * b) by (nonlinear_arith);
    lemma_div_is_ordered(a, d * b, d);
    lemma_div_multiples_vanish(b, d);
}

/// A nonnegative quantity is at most `m / d` exactly when its product with
/// the positive divisor `d` is at most `m`.
pub proof fn lemma_div_guard(q: int, d: int, m: int)
    requires
        0 <= q,
        0 < d,
        0 <= m,
    ensures
        q * d <= m <==> q <= m / d,
{
    lemma_fundamental_div_mod(m, d);
    lemma_mod_bound(m, d);
    let k = m / d;
    let r = m % d;
    if q <= k {
        assert(q * d <= m) by (nonlinear_arith)
            requires
                m == d * k + r,
                0 <= r,
                q <= k,
                0 < d,
        ;
    } else {
        assert(q * d > m) by (nonlinear_arith)
            requires
                m == d * k + r,
                r < d,
                q >= k + 1,
                0 < d,
        ;
    }
}

/// Multiplying a nonnegative fixed-point value by a factor of at least one
/// does not shrink it, even after truncation.
proof fn lemma_fp_mul_ge_left(a: int, b: int)
    requires
        0 <= a,
        SCALE <= b,
    ensures
        fp_mul(a, b) >= a,
{
    assert(a * b >= (SCALE as int) * a) by (nonlinear_arith)
        requires
            0 <= a,
            SCALE <= b,
    ;
    lemma_div_is_ordered((SCALE as int) * a, a * b, SCALE as int);
    lemma_div_multiples_vanish(a, SCALE as int);
}

/// After at least one period at a nonnegative rate, compound growth is at
/// least one plus the rate.
pub proof fn lemma_growth_at_least_base(rate: int, n: nat)
    requires
        0 <= rate,
        1 <= n,
    ensures
        spec_growth(rate, n) >= SCALE + rate,
    decreases n,
{
    if n == 1 {
        reveal_with_fuel(spec_growth, 2);
        lemma_div_multiples_vanish(SCALE + rate, SCALE as int);
        assert(spec_growth(rate, 1) == ((SCALE as int) * (SCALE + rate)) / (SCALE as int));
    } else {
        lemma_growth_at_least_base(rate, (n - 1) as nat);
        lemma_fp_mul_ge_left(spec_growth(rate, (n - 1) as nat), SCALE + rate);
    }
}

/// If the compounding walk fits for `n` periods it also fits for any shorter
/// prefix.
proof fn lemma_growth_fits_prefix(rate: int, m: nat, n: nat)
    requires
        m <= n,
    ensures
        growth_fits(rate, n) ==> growth_fits(rate, m),
    decreases n,
{
    if m < n {
        lemma_growth_fits_prefix(rate, m, (n - 1) as nat);
    }
}

/// The fixed-point value of `(1 + rate)^months`, or `None` when some step of
/// the compounding walk would exceed a `u64`.
pub fn growth_factor(rate: u64, months: u32) -> (r: Option<u64>)
    requires
        rate + SCALE <= u64::MAX,
    ensures
        r matches Some(p) ==> growth_fits(rate as int, months as nat) && p == spec_growth(
            rate as int,
            months as nat,
        ),
        r is None <==> !growth_fits(rate as int, months as nat),
{
    let base: u64 = SCALE + rate;
    let mut acc: u64 = SCALE;
    let mut i: u32 = 0;
    while i < months
        invariant
            i <= months,
            base == SCALE + rate,
            growth_fits(rate as int, i as nat),
            acc == spec_growth(rate as int, i as nat),
        decreases months - i,
    {
        proof {
            assert((acc as int) * (base as int) < 0x100000000000000000000000000000000int)
                by (nonlinear_arith)
                requires
                    acc <= u64::MAX,
                    base <= u64::MAX,
            ;
        }
        let wide: u128 = (acc as u128) * (base as u128);
        let next: u128 = wide / (SCALE as u128);
        if next > u64::MAX as u128 {
            proof {
                lemma_growth_fits_prefix(rate as int, (i + 1) as nat, months as nat);
            }
            return None;
        }
        acc = next as u64;
        i = i + 1;
    }
    Some(acc)
}

} // verus!
