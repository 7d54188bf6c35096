use real_estate_fractional_backend::{LedgerError, System};

#[test]
fn partial_buy_reduces_listing_and_moves_shares() {
    // alice lists 30 at price 5; bob buys 20: listing keeps 10,
    // alice 60 -> 40, bob 0 -> 20.
    let mut s = System::new();
    let p = s.register_property("Villa".to_string(), 100);
    s.issue_shares(p.id, "alice".to_string(), 60).unwrap();
    assert_eq!(
        s.list_shares_for_sale(p.id, "alice".to_string(), 30, 5),
        Ok(())
    );
    assert_eq!(
        s.buy_shares(p.id, "alice".to_string(), "bob".to_string(), 20),
        Ok(())
    );
    assert_eq!(s.get_ownership(p.id, "alice".to_string()), 40);
    assert_eq!(s.get_ownership(p.id, "bob".to_string()), 20);
    let listings = s.get_marketplace_listings();
    assert_eq!(listings.len(), 1);
    assert_eq!(listings[0].property_id, p.id);
    assert_eq!(listings[0].seller, "alice");
    assert_eq!(listings[0].amount, 10);
    assert_eq!(listings[0].price_per_share, 5);
}

#[test]
fn exact_buy_removes_the_listing() {
    let mut s = System::new();
    let p = s.register_property("Villa".to_string(), 100);
    s.issue_shares(p.id, "alice".to_string(), 60).unwrap();
    s.list_shares_for_sale(p.id, "alice".to_string(), 30, 5).unwrap();
    assert_eq!(
        s.buy_shares(p.id, "alice".to_string(), "bob".to_string(), 30),
        Ok(())
    );
    assert!(s.get_marketplace_listings().is_empty());
}

#[test]
fn buy_larger_than_any_listing_is_not_found_and_changes_nothing() {
    let mut s = System::new();
    let p = s.register_property("Villa".to_string(), 100);
    s.issue_shares(p.id, "alice".to_string(), 60).unwrap();
    s.list_shares_for_sale(p.id, "alice".to_string(), 30, 5).unwrap();
    assert_eq!(
        s.buy_shares(p.id, "alice".to_string(), "bob".to_string(), 40),
        Err(LedgerError::NotFound)
    );
    assert_eq!(s.get_ownership(p.id, "alice".to_string()), 60);
    assert_eq!(s.get_ownership(p.id, "bob".to_string()), 0);
    let listings = s.get_marketplace_listings();
    assert_eq!(listings.len(), 1);
    assert_eq!(listings[0].amount, 30);
}

#[test]
fn buy_without_any_listing_is_not_found() {
    let mut s = System::new();
    let p = s.register_property("Villa".to_string(), 100);
    s.issue_shares(p.id, "alice".to_string(), 60).unwrap();
    assert_eq!(
        s.buy_shares(p.id, "alice".to_string(), "bob".to_string(), 10),
        Err(LedgerError::NotFound)
    );
}

#[test]
fn listing_more_than_owned_is_rejected() {
    let mut s = System::new();
    let p = s.register_property("Villa".to_string(), 100);
    s.issue_shares(p.id, "alice".to_string(), 60).unwrap();
    assert_eq!(
        s.list_shares_for_sale(p.id, "alice".to_string(), 61, 5),
        Err(LedgerError::InsufficientBalance)
    );
    assert!(s.get_marketplace_listings().is_empty());
}

#[test]
fn stale_listing_fails_the_buy_and_keeps_the_listing() {
    // Listed shares are not reserved. When the seller has traded them away
    // before the buy executes, the whole buy fails with
    // InsufficientBalance and nothing changes.
    let mut s = System::new();
    let p = s.register_property("Villa".to_string(), 100);
    s.issue_shares(p.id, "alice".to_string(), 60).unwrap();
    s.list_shares_for_sale(p.id, "alice".to_string(), 30, 5).unwrap();
    s.transfer_shares(p.id, "alice".to_string(), "carol".to_string(), 50)
        .unwrap();
    assert_eq!(
        s.buy_shares(p.id, "alice".to_string(), "bob".to_string(), 20),
        Err(LedgerError::InsufficientBalance)
    );
    assert_eq!(s.get_ownership(p.id, "alice".to_string()), 10);
    assert_eq!(s.get_ownership(p.id, "bob".to_string()), 0);
    assert_eq!(s.get_marketplace_listings().len(), 1);
}

#[test]
fn first_matching_listing_serves_the_buy() {
    // The first listing large enough for the request is used, in listing
    // order, regardless of price.
    let mut s = System::new();
    let p = s.register_property("Villa".to_string(), 100);
    s.issue_shares(p.id, "alice".to_string(), 60).unwrap();
    s.list_shares_for_sale(p.id, "alice".to_string(), 10, 9).unwrap();
    s.list_shares_for_sale(p.id, "alice".to_string(), 30, 5).unwrap();
    assert_eq!(
        s.buy_shares(p.id, "alice".to_string(), "bob".to_string(), 20),
        Ok(())
    );
    let listings = s.get_marketplace_listings();
    assert_eq!(listings.len(), 2);
    assert_eq!(listings[0].amount, 10);
    assert_eq!(listings[0].price_per_share, 9);
    assert_eq!(listings[1].amount, 10);
    assert_eq!(listings[1].price_per_share, 5);
}

#[test]
fn zero_amount_listing_and_buy_are_degenerate_successes() {
    // Anyone may list zero shares, and a zero-share buy consumes such a
    // listing exactly, removing it without moving any balance.
    let mut s = System::new();
    let p = s.register_property("Villa".to_string(), 100);
    assert_eq!(
        s.list_shares_for_sale(p.id, "alice".to_string(), 0, 5),
        Ok(())
    );
    assert_eq!(s.get_marketplace_listings().len(), 1);
    assert_eq!(
        s.buy_shares(p.id, "alice".to_string(), "bob".to_string(), 0),
        Ok(())
    );
    assert!(s.get_marketplace_listings().is_empty());
    assert_eq!(s.get_ownership(p.id, "bob".to_string()), 0);
}

#[test]
fn snapshot_is_a_copy_in_listing_order() {
    let mut s = System::new();
    let p = s.register_property("Villa".to_string(), 100);
    s.issue_shares(p.id, "alice".to_string(), 60).unwrap();
    s.list_shares_for_sale(p.id, "alice".to_string(), 5, 2).unwrap();
    s.list_shares_for_sale(p.id, "alice".to_string(), 7, 3).unwrap();
    let listings = s.get_marketplace_listings();
    assert_eq!(listings.len(), 2);
    assert_eq!(listings[0].amount, 5);
    assert_eq!(listings[1].amount, 7);
    assert_eq!(listings[0].seller, "alice");
}
