use real_estate_fractional_backend::{LedgerError, System};

#[test]
fn villa_scenario_distributes_pro_rata_and_claims() {
    // Register "Villa" with 100 shares, issue 60 to alice and 40 to bob,
    // deposit 100: alice is owed floor(100*60/100) = 60, bob 40; alice's
    // claim returns 60 and resets her unclaimed income to 0.
    let mut s = System::new();
    let p = s.register_property("Villa".to_string(), 100);
    s.issue_shares(p.id, "alice".to_string(), 60).unwrap();
    s.issue_shares(p.id, "bob".to_string(), 40).unwrap();
    assert_eq!(s.deposit_rental_income(p.id, 100), Ok(()));
    assert_eq!(s.get_unclaimed_income(p.id, "alice".to_string()), 60);
    assert_eq!(s.get_unclaimed_income(p.id, "bob".to_string()), 40);
    assert_eq!(s.claim_income(p.id, "alice".to_string()), 60);
    assert_eq!(s.get_unclaimed_income(p.id, "alice".to_string()), 0);
    assert_eq!(s.get_unclaimed_income(p.id, "bob".to_string()), 40);
}

#[test]
fn claim_twice_returns_amount_then_zero() {
    let mut s = System::new();
    let p = s.register_property("Villa".to_string(), 100);
    s.issue_shares(p.id, "alice".to_string(), 100).unwrap();
    s.deposit_rental_income(p.id, 55).unwrap();
    assert_eq!(s.claim_income(p.id, "alice".to_string()), 55);
    assert_eq!(s.claim_income(p.id, "alice".to_string()), 0);
}

#[test]
fn claim_with_nothing_owed_returns_zero() {
    let mut s = System::new();
    let p = s.register_property("Villa".to_string(), 100);
    assert_eq!(s.claim_income(p.id, "nobody".to_string()), 0);
    assert_eq!(s.get_unclaimed_income(p.id, "nobody".to_string()), 0);
}

#[test]
fn deposit_on_unknown_property_is_not_found() {
    let mut s = System::new();
    assert_eq!(s.deposit_rental_income(3, 100), Err(LedgerError::NotFound));
    assert_eq!(s.get_rental_income_total(3), 0);
}

#[test]
fn deposit_on_zero_share_property_is_not_found() {
    let mut s = System::new();
    let p = s.register_property("Empty".to_string(), 0);
    assert_eq!(s.deposit_rental_income(p.id, 10), Err(LedgerError::NotFound));
    assert_eq!(s.get_rental_income_total(p.id), 0);
}

#[test]
fn rounding_dust_never_inflates_the_deposit() {
    // 3 total shares, one each to alice and bob: a deposit of 10 credits
    // floor(10/3) = 3 to each; 6 of the 10 are distributed, 4 are dust.
    let mut s = System::new();
    let p = s.register_property("Hut".to_string(), 3);
    s.issue_shares(p.id, "alice".to_string(), 1).unwrap();
    s.issue_shares(p.id, "bob".to_string(), 1).unwrap();
    s.deposit_rental_income(p.id, 10).unwrap();
    let a = s.get_unclaimed_income(p.id, "alice".to_string());
    let b = s.get_unclaimed_income(p.id, "bob".to_string());
    assert_eq!(a, 3);
    assert_eq!(b, 3);
    assert!(a + b <= 10);
}

#[test]
fn owners_with_zero_balance_get_nothing() {
    let mut s = System::new();
    let p = s.register_property("Villa".to_string(), 100);
    s.issue_shares(p.id, "alice".to_string(), 100).unwrap();
    s.transfer_shares(p.id, "alice".to_string(), "bob".to_string(), 100)
        .unwrap();
    s.deposit_rental_income(p.id, 10).unwrap();
    assert_eq!(s.get_unclaimed_income(p.id, "alice".to_string()), 0);
    assert_eq!(s.get_unclaimed_income(p.id, "bob".to_string()), 10);
}

#[test]
fn cumulative_total_grows_with_each_deposit() {
    let mut s = System::new();
    let p = s.register_property("Villa".to_string(), 100);
    s.issue_shares(p.id, "alice".to_string(), 100).unwrap();
    s.deposit_rental_income(p.id, 30).unwrap();
    s.deposit_rental_income(p.id, 12).unwrap();
    assert_eq!(s.get_rental_income_total(p.id), 42);
    // claiming reduces what is owed, never the cumulative total
    assert_eq!(s.claim_income(p.id, "alice".to_string()), 42);
    assert_eq!(s.get_rental_income_total(p.id), 42);
}

#[test]
fn huge_values_distribute_without_overflow() {
    // The pro-rata product is computed widened: a sole owner of the
    // largest possible share count is credited the whole deposit exactly.
    let mut s = System::new();
    let p = s.register_property("Big".to_string(), u64::MAX);
    s.issue_shares(p.id, "alice".to_string(), u64::MAX).unwrap();
    s.deposit_rental_income(p.id, u64::MAX).unwrap();
    assert_eq!(s.get_unclaimed_income(p.id, "alice".to_string()), u64::MAX);
    assert_eq!(s.claim_income(p.id, "alice".to_string()), u64::MAX);
}

#[test]
fn deposits_accumulate_per_owner_until_claimed() {
    let mut s = System::new();
    let p = s.register_property("Villa".to_string(), 100);
    s.issue_shares(p.id, "alice".to_string(), 50).unwrap();
    s.issue_shares(p.id, "bob".to_string(), 50).unwrap();
    s.deposit_rental_income(p.id, 100).unwrap();
    s.deposit_rental_income(p.id, 8).unwrap();
    assert_eq!(s.get_unclaimed_income(p.id, "alice".to_string()), 54);
    assert_eq!(s.get_unclaimed_income(p.id, "bob".to_string()), 54);
}
