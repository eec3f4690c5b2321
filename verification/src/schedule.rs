//! The amortization schedule itself: inputs, records, the closed-form
//! payment, and the month-by-month balance walk.

use vstd::prelude::*;
use vstd::arithmetic::div_mod::{
    lemma_div_is_ordered, lemma_div_multiples_vanish, lemma_div_nonincreasing,
    lemma_div_pos_is_pos, lemma_fundamental_div_mod, lemma_mod_bound,
};
use vstd::arithmetic::mul::lemma_mul_inequality;
use crate::fixed::{
    fp_mul, growth_fits, lemma_div_guard, lemma_div_le, lemma_growth_at_least_base, spec_growth,
    SCALE,
};

verus! {

/// Largest principal the calculator accepts, in cents.
pub const MAX_AMOUNT_CENTS: u64 = 1_000_000_000_000_000;

/// Largest annual rate the calculator accepts, in thousandths of a percent.
pub const MAX_RATE_MILLI_PERCENT: u32 = 1_000_000;

/// Longest term the calculator accepts, in years.
pub const MAX_YEARS: u32 = 1_000;

/// Divisor that turns an annual rate in thousandths of a percent into a
/// monthly fraction in parts per billion: a thousand thousandths to the
/// percent, a hundred percent to the whole, twelve months to the year.
pub const RATE_DIVISOR: u64 = 1_200_000;

/// Monthly rate in parts per billion for an annual rate given in
/// thousandths of a percent.
pub open spec fn spec_monthly_rate(rate_milli: int) -> int {
    (rate_milli * SCALE) / (RATE_DIVISOR as int)
}

/// Interest owed for one month on `balance` cents at the monthly rate
/// `rate` (parts per billion): zero once the balance is retired.
pub open spec fn spec_interest(balance: int, rate: int) -> int {
    if balance > 0 {
        (balance * rate) / (SCALE as int)
    } else {
        0
    }
}

/// The fixed monthly payment, in cents: the closed-form annuity payment for
/// a positive rate, and an even split of the principal when the rate is
/// zero.
pub open spec fn spec_payment(amount: int, rate: int, months: int) -> int {
    if rate == 0 {
        amount / months
    } else {
        let p = spec_growth(rate, months as nat);
        (amount * rate * p) / ((p - SCALE) * SCALE)
    }
}

/// Remaining balance in cents after `n` monthly payments: each month the
/// payment first covers the interest on the open balance and the rest
/// retires principal.
pub open spec fn spec_balance(amount: int, rate: int, payment: int, n: nat) -> int
    decreases n,
{
    if n == 0 {
        amount
    } else {
        let b = spec_balance(amount, rate, payment, (n - 1) as nat);
        b - (payment - spec_interest(b, rate))
    }
}

/// One month of a schedule: the month number (starting at one) and the
/// split of that month's payment into principal and interest, in cents.
/// The principal share is negative exactly when the interest owed exceeds
/// the payment.
#[derive(Clone, Copy, Debug, PartialEq, Eq, Structural)]
pub struct MonthlyRecord {
    pub month: u32,
    pub principal: i64,
    pub interest: i64,
}

/// A complete amortization schedule: the fixed monthly payment and the
/// total paid over the term, both in cents, and one record per month.
#[derive(Clone, Debug, PartialEq, Eq)]
pub struct LoanSchedule {
    pub monthly_payment: u64,
    pub total_payment: u64,
    pub records: Vec<MonthlyRecord>,
}

/// Why a request was rejected.
#[derive(Clone, Copy, Debug, PartialEq, Eq, Structural)]
pub enum LoanError {
    /// The term was zero years.
    ZeroYears,
    /// The principal was zero cents.
    ZeroAmount,
    /// The principal exceeded `MAX_AMOUNT_CENTS`.
    AmountTooLarge,
    /// The annual rate exceeded `MAX_RATE_MILLI_PERCENT`.
    RateTooLarge,
    /// The term exceeded `MAX_YEARS`.
    TermTooLong,
    /// The principal is so small against the rate that the payment, truncated
    /// to whole cents, would not exceed the first month's interest: such a
    /// schedule would never amortize, so it is refused.
    AmountTooSmall,
    /// An intermediate value of the payment formula left the machine range.
    Overflow,
}

/// Whether the three raw inputs pass validation.
pub open spec fn inputs_accepted(amount: int, rate_milli: int, years: int) -> bool {
    &&& 0 < years <= MAX_YEARS
    &&& 0 < amount <= MAX_AMOUNT_CENTS
    &&& rate_milli <= MAX_RATE_MILLI_PERCENT
}

/// Whether the payment formula leaves the machine range on these inputs,
/// in which case the calculator reports `LoanError::Overflow` rather than
/// returning a wrong schedule.
pub open spec fn spec_overflow(amount: int, rate: int, months: int) -> bool {
    let p = spec_growth(rate, months as nat);
    ||| 0 < rate && !growth_fits(rate, months as nat)
    ||| 0 < rate && amount * rate * p > u128::MAX
    ||| 0 < rate && spec_payment(amount, rate, months) > i64::MAX
    ||| spec_payment(amount, rate, months) * months > i64::MAX
}

/// Whether `rec` is the `i`-th (zero-based) month of the schedule for the
/// given principal, monthly rate and payment: the interest is one month's
/// charge on the balance left after `i` payments, and principal plus
/// interest always reassemble the payment exactly.
pub open spec fn record_matches(
    rec: MonthlyRecord,
    amount: int,
    rate: int,
    payment: int,
    i: int,
) -> bool {
    let b = spec_balance(amount, rate, payment, i as nat);
    &&& rec.month == i + 1
    &&& rec.interest == spec_interest(b, rate)
    &&& rec.principal == payment - spec_interest(b, rate)
    &&& rec.principal + rec.interest == payment
}

/// Whether `s` is the schedule for the given principal, monthly rate and
/// term: the payment is the annuity payment, the total is the payment times
/// the number of months, and there is one matching record per month.
pub open spec fn schedule_matches(s: LoanSchedule, amount: int, rate: int, months: int) -> bool {
    let pay = spec_payment(amount, rate, months);
    &&& s.monthly_payment == pay
    &&& s.total_payment == pay * months
    &&& s.records@.len() == months
    &&& forall|i: int|
        0 <= i < months ==> record_matches(#[trigger] s.records@[i], amount, rate, pay, i)
}

/// Converts an annual rate in thousandths of a percent to the monthly rate
/// in parts per billion.
pub fn monthly_rate_ppb(rate_milli: u32) -> (r: u64)
    ensures
        r == spec_monthly_rate(rate_milli as int),
{
    (rate_milli as u64) * SCALE / RATE_DIVISOR
}

/// Monthly interest is never negative at a nonnegative rate.
pub proof fn lemma_interest_nonneg(balance: int, rate: int)
    requires
        0 <= rate,
    ensures
        0 <= spec_interest(balance, rate),
{
    if balance > 0 {
        assert(0 <= balance * rate) by (nonlinear_arith)
            requires
                0 < balance,
                0 <= rate,
        ;
        lemma_div_pos_is_pos(balance * rate, SCALE as int);
    }
}

/// A smaller open balance never owes more monthly interest.
pub proof fn lemma_interest_mono(b1: int, b2: int, rate: int)
    requires
        b1 <= b2,
        0 <= rate,
    ensures
        spec_interest(b1, rate) <= spec_interest(b2, rate),
{
    lemma_interest_nonneg(b2, rate);
    if b1 > 0 {
        lemma_mul_inequality(b1, b2, rate);
        lemma_div_is_ordered(b1 * rate, b2 * rate, SCALE as int);
    }
}

/// The annuity payment always covers the interest owed on the full
/// principal in the first month, so a schedule never needs a payment below
/// its own interest charge.
pub proof fn lemma_payment_covers_first_interest(amount: int, rate: int, months: int)
    requires
        0 < amount,
        0 <= rate,
        1 <= months,
    ensures
        spec_interest(amount, rate) <= spec_payment(amount, rate, months),
        0 <= spec_payment(amount, rate, months),
{
    if rate == 0 {
        lemma_div_pos_is_pos(amount, months);
    } else {
        let p = spec_growth(rate, months as nat);
        lemma_growth_at_least_base(rate, months as nat);
        let den = (p - SCALE) * SCALE;
        let num = amount * rate * p;
        let q = spec_interest(amount, rate);
        lemma_fundamental_div_mod(amount * rate, SCALE as int);
        lemma_mod_bound(amount * rate, SCALE as int);
        assert(q * den <= num) by (nonlinear_arith)
            requires
                amount * rate == (SCALE as int) * q + (amount * rate) % (SCALE as int),
                0 <= (amount * rate) % (SCALE as int),
                num == amount * rate * p,
                den == (p - SCALE) * SCALE,
                SCALE + rate <= p,
                1 <= rate,
                0 < amount,
                0 <= q,
                0 < SCALE,
        ;
        assert(0 < den) by (nonlinear_arith)
            requires
                SCALE + rate <= p,
                1 <= rate,
                0 < SCALE,
                den == (p - SCALE) * SCALE,
        ;
        assert(0 <= num) by (nonlinear_arith)
            requires
                num == amount * rate * p,
                0 < amount,
                1 <= rate,
                SCALE + rate <= p,
                0 < SCALE,
        ;
        lemma_div_is_ordered(q * den, num, den);
        lemma_div_multiples_vanish(q, den);
        assert(den * q == q * den) by (nonlinear_arith);
        lemma_div_pos_is_pos(num, den);
        assert(0 <= q) by {
            lemma_interest_nonneg(amount, rate);
        }
    }
}

/// As long as the payment covers the interest on the full principal, the
/// balance walk stays between the principal and the principal less all
/// payments made so far.
pub proof fn lemma_balance_bounds(amount: int, rate: int, payment: int, n: nat)
    requires
        0 <= amount,
        0 <= rate,
        spec_interest(amount, rate) <= payment,
        0 <= payment,
    ensures
        amount - n * payment <= spec_balance(amount, rate, payment, n),
        spec_balance(amount, rate, payment, n) <= amount,
    decreases n,
{
    if n == 0 {
        assert(n * payment == 0) by (nonlinear_arith)
            requires
                n == 0,
        ;
    } else {
        lemma_balance_bounds(amount, rate, payment, (n - 1) as nat);
        let b = spec_balance(amount, rate, payment, (n - 1) as nat);
        lemma_interest_mono(b, amount, rate);
        lemma_interest_nonneg(b, rate);
        assert((n - 1) * payment + payment == n * payment) by (nonlinear_arith);
    }
}

/// The implied remaining balance strictly decreases from month to month
/// whenever the payment strictly exceeds the interest owed on the full
/// principal. The calculator guarantees that premise for every schedule it
/// returns at a positive rate: inputs whose truncated payment cannot beat
/// the first month's interest are rejected as `AmountTooSmall`.
pub proof fn lemma_balance_strictly_decreases(amount: int, rate: int, payment: int, n: nat)
    requires
        0 <= amount,
        0 <= rate,
        spec_interest(amount, rate) < payment,
    ensures
        spec_balance(amount, rate, payment, n + 1) < spec_balance(amount, rate, payment, n),
{
    lemma_interest_nonneg(amount, rate);
    lemma_balance_bounds(amount, rate, payment, n);
    let b = spec_balance(amount, rate, payment, n);
    lemma_interest_mono(b, amount, rate);
}

/// Computes the fixed-rate amortization schedule for a principal of
/// `amount_cents` cents, an annual rate of `rate_milli` thousandths of a
/// percent, and a term of `years` years.
///
/// The contract pins every field of the result: the monthly payment is the
/// truncated closed-form annuity payment (or an even split of the principal
/// at a zero rate), the total is the payment times the number of months,
/// and the `i`-th record carries month `i + 1`, the interest on the balance
/// left after `i` payments, and the rest of the payment as principal.
/// Invalid inputs and inputs that would leave the machine range are each
/// rejected with the stated error, never a wrong schedule. At a positive
/// rate, a returned schedule always pays strictly more each month than the
/// first month's interest, so its implied balance strictly decreases;
/// principals too small for that are rejected rather than left to stand
/// still.
pub fn calculate_loan(amount_cents: u64, rate_milli: u32, years: u32) -> (r: Result<
    LoanSchedule,
    LoanError,
>)
    ensures
        (r matches Err(LoanError::ZeroYears)) <==> years == 0,
        (r matches Err(LoanError::ZeroAmount)) <==> years > 0 && amount_cents == 0,
        (r matches Err(LoanError::AmountTooLarge)) <==> years > 0 && amount_cents
            > MAX_AMOUNT_CENTS,
        (r matches Err(LoanError::RateTooLarge)) <==> years > 0 && 0 < amount_cents
            <= MAX_AMOUNT_CENTS && rate_milli > MAX_RATE_MILLI_PERCENT,
        (r matches Err(LoanError::TermTooLong)) <==> years > MAX_YEARS && 0 < amount_cents
            <= MAX_AMOUNT_CENTS && rate_milli <= MAX_RATE_MILLI_PERCENT,
        (r matches Err(LoanError::Overflow)) <==> inputs_accepted(
            amount_cents as int,
            rate_milli as int,
            years as int,
        ) && spec_overflow(
            amount_cents as int,
            spec_monthly_rate(rate_milli as int),
            12 * years as int,
        ),
        (r matches Err(LoanError::AmountTooSmall)) <==> ({
            let rate = spec_monthly_rate(rate_milli as int);
            &&& inputs_accepted(amount_cents as int, rate_milli as int, years as int)
            &&& !spec_overflow(amount_cents as int, rate, 12 * years as int)
            &&& 0 < rate
            &&& spec_payment(amount_cents as int, rate, 12 * years as int) <= spec_interest(
                amount_cents as int,
                rate,
            )
        }),
        (r is Ok) <==> ({
            let rate = spec_monthly_rate(rate_milli as int);
            &&& inputs_accepted(amount_cents as int, rate_milli as int, years as int)
            &&& !spec_overflow(amount_cents as int, rate, 12 * years as int)
            &&& (0 < rate ==> spec_interest(amount_cents as int, rate) < spec_payment(
                amount_cents as int,
                rate,
                12 * years as int,
            ))
        }),
        r matches Ok(s) ==> schedule_matches(
            s,
            amount_cents as int,
            spec_monthly_rate(rate_milli as int),
            12 * years as int,
        ),
        r matches Ok(s) ==> (0 < spec_monthly_rate(rate_milli as int) ==> spec_interest(
            amount_cents as int,
            spec_monthly_rate(rate_milli as int),
        ) < spec_payment(
            amount_cents as int,
            spec_monthly_rate(rate_milli as int),
            12 * years as int,
        )),
{
    if years == 0 {
        return Err(LoanError::ZeroYears);
    }
    if amount_cents == 0 {
        return Err(LoanError::ZeroAmount);
    }
    if amount_cents > MAX_AMOUNT_CENTS {
        return Err(LoanError::AmountTooLarge);
    }
    if rate_milli > MAX_RATE_MILLI_PERCENT {
        return Err(LoanError::RateTooLarge);
    }
    if years > MAX_YEARS {
        return Err(LoanError::TermTooLong);
    }
    let ghost amt = amount_cents as int;
    let months: u32 = years * 12;
    let ghost mo = months as int;
    let rate_ppb: u64 = monthly_rate_ppb(rate_milli);
    let ghost rt = rate_ppb as int;
    proof {
        // The monthly rate is bounded because the annual rate is.
        assert((rate_milli as int) * (SCALE as int) <= 833_333_334int * (RATE_DIVISOR as int));
        lemma_div_le((rate_milli as int) * (SCALE as int), 833_333_334int, RATE_DIVISOR as int);
    }
    let payment: u64 = if rate_ppb == 0 {
        let even: u64 = amount_cents / (months as u64);
        proof {
            lemma_div_nonincreasing(amt, mo);
        }
        even
    } else {
        let p: u64 = match crate::fixed::growth_factor(rate_ppb, months) {
            Some(p) => p,
            None => {
                return Err(LoanError::Overflow);
            },
        };
        proof {
            lemma_growth_at_least_base(rt, mo as nat);
        }
        let pd: u64 = p - SCALE;
        proof {
            assert(amt * rt <= 1_000_000_000_000_000int * 833_333_334int) by (nonlinear_arith)
                requires
                    0 <= amt <= 1_000_000_000_000_000int,
                    0 <= rt <= 833_333_334int,
            ;
        }
        let q: u128 = (amount_cents as u128) * (rate_ppb as u128);
        let pw: u128 = p as u128;
        let lim: u128 = u128::MAX / pw;
        proof {
            lemma_div_guard(q as int, p as int, u128::MAX as int);
        }
        if q > lim {
            return Err(LoanError::Overflow);
        }
        let num: u128 = q * pw;
        proof {
            assert((pd as int) * (SCALE as int) < 0x100000000000000000000000000000000int)
                by (nonlinear_arith)
                requires
                    pd <= u64::MAX,
                    SCALE <= u64::MAX,
            ;
            assert(0 < (pd as int) * (SCALE as int)) by (nonlinear_arith)
                requires
                    0 < pd,
                    0 < SCALE,
            ;
        }
        let den: u128 = (pd as u128) * (SCALE as u128);
        let pay128: u128 = num / den;
        if pay128 > i64::MAX as u128 {
            return Err(LoanError::Overflow);
        }
        proof {
            assert(pay128 as int == spec_payment(amt, rt, mo));
        }
        pay128 as u64
    };
    proof {
        assert(payment as int == spec_payment(amt, rt, mo));
        assert((payment as int) * (months as int) < 0x100000000000000000000000000000000int)
            by (nonlinear_arith)
            requires
                payment <= u64::MAX,
                months <= u32::MAX,
        ;
    }
    let tot128: u128 = (payment as u128) * (months as u128);
    if tot128 > i64::MAX as u128 {
        return Err(LoanError::Overflow);
    }
    let total: u64 = tot128 as u64;
    if rate_ppb > 0 {
        proof {
            assert(amt * rt <= 1_000_000_000_000_000int * 833_333_334int) by (nonlinear_arith)
                requires
                    0 <= amt <= 1_000_000_000_000_000int,
                    0 <= rt <= 833_333_334int,
            ;
            lemma_div_le(amt * rt, 833_333_334_000_000int, SCALE as int);
        }
        let wide: u128 = (amount_cents as u128) * (rate_ppb as u128);
        let interest0: u64 = (wide / (SCALE as u128)) as u64;
        proof {
            assert(interest0 as int == spec_interest(amt, rt));
        }
        if payment <= interest0 {
            return Err(LoanError::AmountTooSmall);
        }
    }
    proof {
        lemma_payment_covers_first_interest(amt, rt, mo);
        lemma_interest_nonneg(amt, rt);
    }
    let pay_i64: i64 = payment as i64;
    let mut balance: i64 = amount_cents as i64;
    let mut records: Vec<MonthlyRecord> = Vec::new();
    let mut month: u32 = 1;
    while month <= months
        invariant
            1 <= month <= months + 1,
            mo == months as int,
            12 <= months <= 12_000,
            amt == amount_cents as int,
            0 < amt <= MAX_AMOUNT_CENTS,
            rt == rate_ppb as int,
            0 <= rt <= 833_333_334,
            payment as int == spec_payment(amt, rt, mo),
            pay_i64 == payment as int,
            payment <= i64::MAX,
            (payment as int) * mo <= i64::MAX,
            0 <= spec_interest(amt, rt) <= payment as int,
            balance as int == spec_balance(amt, rt, payment as int, (month - 1) as nat),
            amt - (month - 1) * (payment as int) <= balance as int,
            balance as int <= amt,
            records@.len() == month - 1,
            forall|i: int|
                0 <= i < month - 1 ==> record_matches(
                    #[trigger] records@[i],
                    amt,
                    rt,
                    payment as int,
                    i,
                ),
        decreases months + 1 - month,
    {
        let ghost bal_old = balance as int;
        let ghost old_recs = records@;
        let interest: i64 = if balance > 0 {
            proof {
                assert((balance as int) * rt <= 1_000_000_000_000_000int * 833_333_334int)
                    by (nonlinear_arith)
                    requires
                        0 <= balance as int <= 1_000_000_000_000_000int,
                        0 <= rt <= 833_333_334int,
                ;
                lemma_div_le(
                    (balance as int) * rt,
                    833_333_334_000_000int,
                    SCALE as int,
                );
            }
            let wide: u128 = (balance as u128) * (rate_ppb as u128);
            (wide / (SCALE as u128)) as i64
        } else {
            0
        };
        proof {
            assert(interest as int == spec_interest(bal_old, rt));
            lemma_interest_nonneg(bal_old, rt);
            lemma_interest_mono(bal_old, amt, rt);
        }
        let principal: i64 = pay_i64 - interest;
        proof {
            // The new balance stays within the window the invariant tracks.
            assert(((month - 1) as int) * (payment as int) + (payment as int) == (month as int) * (
            payment as int)) by (nonlinear_arith);
            lemma_mul_inequality(month as int, mo, payment as int);
        }
        balance = balance - principal;
        records.push(MonthlyRecord { month, principal, interest });
        month = month + 1;
        proof {
            assert(balance as int == spec_balance(amt, rt, payment as int, (month - 1) as nat));
            assert forall|i: int| 0 <= i < month - 1 implies record_matches(
                #[trigger] records@[i],
                amt,
                rt,
                payment as int,
                i,
            ) by {
                if i < month - 2 {
                    assert(records@[i] == old_recs[i]);
                }
            }
        }
    }
    Ok(LoanSchedule { monthly_payment: payment, total_payment: total, records })
}

} // verus!
