use real_estate_fractional_backend::{LedgerError, System};

#[test]
fn register_allocates_dense_ids() {
    let mut s = System::new();
    let p1 = s.register_property("Villa".to_string(), 100);
    assert_eq!(p1.id, 1);
    assert_eq!(p1.name, "Villa");
    assert_eq!(p1.total_shares, 100);
    assert_eq!(p1.shares_available, 100);
    let p2 = s.register_property("Flat".to_string(), 10);
    assert_eq!(p2.id, 2);
    assert_eq!(p2.shares_available, 10);
}

#[test]
fn get_property_returns_stored_record() {
    let mut s = System::new();
    let p = s.register_property("Villa".to_string(), 100);
    let got = s.get_property(p.id).expect("registered property");
    assert_eq!(got, p);
    assert!(s.get_property(2).is_none());
    assert!(s.get_property(0).is_none());
}

#[test]
fn issue_shares_moves_from_available_pool() {
    let mut s = System::new();
    let p = s.register_property("Villa".to_string(), 100);
    assert_eq!(s.issue_shares(p.id, "alice".to_string(), 60), Ok(()));
    assert_eq!(s.get_ownership(p.id, "alice".to_string()), 60);
    let after = s.get_property(p.id).unwrap();
    assert_eq!(after.shares_available, 40);
    assert_eq!(after.total_shares, 100);
}

#[test]
fn issue_shares_insufficient_is_rejected_unchanged() {
    let mut s = System::new();
    let p = s.register_property("Villa".to_string(), 100);
    assert_eq!(
        s.issue_shares(p.id, "alice".to_string(), 101),
        Err(LedgerError::InsufficientBalance)
    );
    assert_eq!(s.get_ownership(p.id, "alice".to_string()), 0);
    assert_eq!(s.get_property(p.id).unwrap().shares_available, 100);
}

#[test]
fn issue_shares_unknown_property_is_not_found() {
    let mut s = System::new();
    assert_eq!(
        s.issue_shares(7, "alice".to_string(), 1),
        Err(LedgerError::NotFound)
    );
}

#[test]
fn issue_zero_shares_is_a_noop_success() {
    let mut s = System::new();
    let p = s.register_property("Villa".to_string(), 100);
    assert_eq!(s.issue_shares(p.id, "alice".to_string(), 0), Ok(()));
    assert_eq!(s.get_ownership(p.id, "alice".to_string()), 0);
    assert_eq!(s.get_property(p.id).unwrap().shares_available, 100);
}

#[test]
fn transfer_moves_between_owners_only() {
    let mut s = System::new();
    let p = s.register_property("Villa".to_string(), 100);
    s.issue_shares(p.id, "alice".to_string(), 60).unwrap();
    assert_eq!(
        s.transfer_shares(p.id, "alice".to_string(), "bob".to_string(), 20),
        Ok(())
    );
    assert_eq!(s.get_ownership(p.id, "alice".to_string()), 40);
    assert_eq!(s.get_ownership(p.id, "bob".to_string()), 20);
    // the available pool is untouched by a transfer
    assert_eq!(s.get_property(p.id).unwrap().shares_available, 40);
}

#[test]
fn transfer_insufficient_fails_rather_than_underflow() {
    let mut s = System::new();
    let p = s.register_property("Villa".to_string(), 100);
    s.issue_shares(p.id, "alice".to_string(), 10).unwrap();
    assert_eq!(
        s.transfer_shares(p.id, "alice".to_string(), "bob".to_string(), 11),
        Err(LedgerError::InsufficientBalance)
    );
    assert_eq!(s.get_ownership(p.id, "alice".to_string()), 10);
    assert_eq!(s.get_ownership(p.id, "bob".to_string()), 0);
}

#[test]
fn transfer_on_unknown_property_is_insufficient() {
    let mut s = System::new();
    assert_eq!(
        s.transfer_shares(9, "alice".to_string(), "bob".to_string(), 1),
        Err(LedgerError::InsufficientBalance)
    );
}

#[test]
fn transfer_to_self_changes_nothing() {
    let mut s = System::new();
    let p = s.register_property("Villa".to_string(), 100);
    s.issue_shares(p.id, "alice".to_string(), 30).unwrap();
    assert_eq!(
        s.transfer_shares(p.id, "alice".to_string(), "alice".to_string(), 20),
        Ok(())
    );
    assert_eq!(s.get_ownership(p.id, "alice".to_string()), 30);
}

#[test]
fn conservation_holds_across_a_day_of_trading() {
    let mut s = System::new();
    let p = s.register_property("Villa".to_string(), 100);
    s.issue_shares(p.id, "alice".to_string(), 60).unwrap();
    s.issue_shares(p.id, "bob".to_string(), 25).unwrap();
    s.transfer_shares(p.id, "alice".to_string(), "carol".to_string(), 5)
        .unwrap();
    s.list_shares_for_sale(p.id, "bob".to_string(), 10, 3).unwrap();
    s.buy_shares(p.id, "bob".to_string(), "carol".to_string(), 10)
        .unwrap();
    let available = s.get_property(p.id).unwrap().shares_available;
    let total: u64 = available
        + s.get_ownership(p.id, "alice".to_string())
        + s.get_ownership(p.id, "bob".to_string())
        + s.get_ownership(p.id, "carol".to_string());
    assert_eq!(total, 100);
}
