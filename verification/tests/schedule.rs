use loan_calculator::schedule::{
    calculate_loan, monthly_rate_ppb, LoanError, LoanSchedule, MAX_AMOUNT_CENTS,
};

/// Walks the records and returns the implied remaining balance in cents,
/// checking along the way that it strictly decreases when asked to.
fn terminal_balance(amount_cents: u64, s: &LoanSchedule, expect_decreasing: bool) -> i64 {
    let mut balance = amount_cents as i64;
    for rec in &s.records {
        let next = balance - rec.principal;
        if expect_decreasing {
            assert!(next < balance, "balance did not decrease in month {}", rec.month);
        }
        balance = next;
    }
    balance
}

#[test]
fn rate_conversion_is_exact() {
    assert_eq!(monthly_rate_ppb(0), 0);
    assert_eq!(monthly_rate_ppb(5_000), 4_166_666);
    assert_eq!(monthly_rate_ppb(4_500), 3_750_000);
    assert_eq!(monthly_rate_ppb(12_000), 10_000_000);
}

#[test]
fn thirty_year_loan_matches_annuity_formula() {
    // 100000.00 at 5% over 30 years.
    let s = calculate_loan(10_000_000, 5_000, 30).unwrap();
    assert_eq!(s.records.len(), 360);
    for (i, rec) in s.records.iter().enumerate() {
        assert_eq!(rec.month as usize, i + 1);
    }
    // The closed-form monthly payment is 536.82 to the cent.
    assert_eq!(s.monthly_payment, 53_682);
    assert_eq!(s.total_payment, 19_325_520);
    assert_eq!(s.total_payment, s.monthly_payment * 360);
    // First month: interest on the full principal at 5%/12, rest principal.
    assert_eq!(s.records[0].interest, 41_666);
    assert_eq!(
        s.records[0].principal,
        s.monthly_payment as i64 - 41_666
    );
}

#[test]
fn every_record_reassembles_the_payment() {
    let s = calculate_loan(10_000_000, 5_000, 30).unwrap();
    for rec in &s.records {
        assert_eq!(rec.principal + rec.interest, s.monthly_payment as i64);
    }
}

#[test]
fn balance_strictly_decreases_at_positive_rate() {
    let s = calculate_loan(10_000_000, 5_000, 30).unwrap();
    terminal_balance(10_000_000, &s, true);
}

#[test]
fn terminal_balance_is_near_zero() {
    let s = calculate_loan(10_000_000, 5_000, 30).unwrap();
    let left = terminal_balance(10_000_000, &s, false);
    assert!(left.abs() <= 2_000, "terminal balance was {} cents", left);
    // The exact residual of the truncating cents walk: 2.74 overpaid.
    assert_eq!(left, -274);
}

#[test]
fn zero_rate_splits_principal_evenly() {
    // 10000.00 at 0% over one year: twelve even payments of 833.33.
    let s = calculate_loan(1_000_000, 0, 1).unwrap();
    assert_eq!(s.records.len(), 12);
    assert_eq!(s.monthly_payment, 83_333);
    assert_eq!(s.total_payment, 999_996);
    for rec in &s.records {
        assert_eq!(rec.interest, 0);
        assert_eq!(rec.principal, 83_333);
    }
    // Truncation to whole cents leaves the last 4 cents on the books.
    assert_eq!(terminal_balance(1_000_000, &s, false), 4);
}

#[test]
fn fifteen_year_loan_has_one_record_per_month() {
    // 50000.00 at 4.5% over 15 years.
    let s = calculate_loan(5_000_000, 4_500, 15).unwrap();
    assert_eq!(s.records.len(), 180);
    for (i, rec) in s.records.iter().enumerate() {
        assert_eq!(rec.month as usize, i + 1);
        assert_eq!(rec.principal + rec.interest, s.monthly_payment as i64);
    }
    assert_eq!(s.total_payment, s.monthly_payment * 180);
    let left = terminal_balance(5_000_000, &s, true);
    assert!(left.abs() <= 2_000, "terminal balance was {} cents", left);
}

#[test]
fn zero_years_is_rejected() {
    assert_eq!(calculate_loan(10_000_000, 5_000, 0), Err(LoanError::ZeroYears));
}

#[test]
fn zero_amount_is_rejected() {
    assert_eq!(calculate_loan(0, 5_000, 30), Err(LoanError::ZeroAmount));
}

#[test]
fn oversized_amount_is_rejected() {
    assert_eq!(
        calculate_loan(MAX_AMOUNT_CENTS + 1, 5_000, 30),
        Err(LoanError::AmountTooLarge)
    );
}

#[test]
fn oversized_rate_is_rejected() {
    assert_eq!(
        calculate_loan(10_000_000, 1_000_001, 30),
        Err(LoanError::RateTooLarge)
    );
}

#[test]
fn oversized_term_is_rejected() {
    assert_eq!(
        calculate_loan(10_000_000, 5_000, 1_001),
        Err(LoanError::TermTooLong)
    );
}

#[test]
fn extreme_growth_reports_overflow() {
    // 1000% a year over 1000 years: the compounding factor leaves u64.
    assert_eq!(
        calculate_loan(MAX_AMOUNT_CENTS, 1_000_000, 1_000),
        Err(LoanError::Overflow)
    );
}

#[test]
fn tiny_loan_is_rejected_rather_than_stalled() {
    // At 5%, loans of a few cents have a payment that truncates to zero
    // cents: such a schedule would never amortize, so it is refused.
    assert_eq!(calculate_loan(1, 5_000, 1), Err(LoanError::AmountTooSmall));
    assert_eq!(calculate_loan(10, 5_000, 1), Err(LoanError::AmountTooSmall));
    // At a zero rate even one cent amortizes (the payment rounds to zero
    // only because the term outnumbers the cents; that stalls nothing the
    // strict-decrease promise covers, so it stays accepted).
    assert!(calculate_loan(1, 0, 1).is_ok());
}
