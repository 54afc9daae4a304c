//! One failing input per reachable error variant, plus the gating rules:
//! every failure leaves the ledger exactly as it was.

use options::engine::Ledger;
use options::records::CustomError;

const ISSUER: u64 = 1;
const HOLDER: u64 = 2;
const OUTSIDER: u64 = 3;
const OPT: u64 = 100;
const ASSET: u64 = 200;
const END: u64 = 1_000;

fn issued_call() -> Ledger {
    let mut l = Ledger::initialize();
    l.fund_native(ISSUER, 1_000_000).unwrap();
    l.fund_native(HOLDER, 1_000_000).unwrap();
    l.fund_asset(ISSUER, ASSET, 1_000_000).unwrap();
    l.create(ISSUER, OPT, ASSET, END, 7, 100, true, true).unwrap();
    l
}

#[test]
fn exercise_after_expiry_fails_temporal() {
    let mut l = issued_call();
    assert_eq!(l.exercise(ISSUER, OPT, 1, END + 1), Err(CustomError::OptionExpired));
    // At the boundary it still runs: now == end_time is not past expiry.
    l.exercise(ISSUER, OPT, 1, END).unwrap();
}

#[test]
fn claim_before_expiry_fails_temporal() {
    let mut l = issued_call();
    assert_eq!(l.claim(ISSUER, OPT, END - 1), Err(CustomError::OptionNotExpired));
    assert!(l.get_contract(OPT).is_some());
    l.claim(ISSUER, OPT, END).unwrap();
}

#[test]
fn claim_by_non_issuer_fails_authorization() {
    let mut l = issued_call();
    assert_eq!(l.claim(HOLDER, OPT, END + 1), Err(CustomError::WrongOwner));
    assert!(l.get_contract(OPT).is_some());
}

#[test]
fn close_listing_is_owner_only_and_expiry_gated() {
    let mut l = issued_call();
    l.list(ISSUER, OPT, 5, 3).unwrap();
    assert_eq!(
        l.close_listing(ISSUER, OPT, ISSUER, 3, END),
        Err(CustomError::OptionNotExpired)
    );
    assert_eq!(
        l.close_listing(OUTSIDER, OPT, ISSUER, 3, END + 1),
        Err(CustomError::WrongOwner)
    );
    assert_eq!(l.get_listing(OPT, ISSUER, 3).unwrap().amount, 5);
}

#[test]
fn buy_more_than_listed_fails_listing_empty() {
    let mut l = issued_call();
    l.list(ISSUER, OPT, 5, 3).unwrap();
    assert_eq!(l.buy(HOLDER, OPT, ISSUER, 3, 6), Err(CustomError::ListingEmpty));
    // The failed buy moved nothing.
    assert_eq!(l.get_listing(OPT, ISSUER, 3).unwrap().amount, 5);
    assert_eq!(l.native_balance(HOLDER), 1_000_000);
    assert_eq!(l.option_balance(HOLDER, OPT), 0);
}

#[test]
fn exercise_beyond_reservation_fails_not_enough() {
    let mut l = issued_call();
    l.exercise(ISSUER, OPT, 60, END).unwrap();
    // 40 units remain unexercised; the reservation check runs before the
    // wallet check, so asking for 41 names the reservation.
    assert_eq!(l.exercise(ISSUER, OPT, 41, END), Err(CustomError::NotEnoughOptionToken));
}

#[test]
fn swap_needs_an_existing_pool() {
    let mut l = issued_call();
    assert_eq!(
        l.swap_pool(HOLDER, OPT, 10, 1, true),
        Err(CustomError::InvalidAccount)
    );
}

#[test]
fn swap_on_drained_pool_fails_pool_empty() {
    let mut l = issued_call();
    l.create_pool(ISSUER, OPT, 10, 0).unwrap();
    // left == 0: no price can be read in either direction.
    assert_eq!(l.swap_pool(HOLDER, OPT, 10, 1, true), Err(CustomError::PoolEmpty));
    assert_eq!(l.swap_pool(HOLDER, OPT, 10, 1, false), Err(CustomError::PoolEmpty));
}

#[test]
fn swap_beyond_reserve_fails_pool_empty() {
    let mut l = issued_call();
    l.create_pool(ISSUER, OPT, 10, 30).unwrap();
    assert_eq!(l.swap_pool(HOLDER, OPT, 10, 31, true), Err(CustomError::PoolEmpty));
    // Selling needs counter-reserve: nothing was bought yet.
    assert_eq!(l.swap_pool(HOLDER, OPT, 10, 1, false), Err(CustomError::PoolEmpty));
}

#[test]
fn pool_slot_is_single_use() {
    let mut l = issued_call();
    l.create_pool(ISSUER, OPT, 10, 30).unwrap();
    assert_eq!(l.create_pool(ISSUER, OPT, 10, 5), Err(CustomError::InvalidAccount));
    // Another base price is another slot.
    l.create_pool(ISSUER, OPT, 11, 5).unwrap();
}

#[test]
fn listing_needs_a_contract() {
    let mut l = Ledger::initialize();
    assert_eq!(l.list(ISSUER, OPT, 5, 3), Err(CustomError::InvalidAccount));
}

#[test]
fn buying_a_missing_listing_is_refused() {
    let mut l = issued_call();
    assert_eq!(l.buy(HOLDER, OPT, ISSUER, 3, 1), Err(CustomError::InvalidAccount));
}

#[test]
fn unfunded_issuance_fails_underflow() {
    let mut l = Ledger::initialize();
    // A call without underlying to escrow.
    assert_eq!(
        l.create(ISSUER, OPT, ASSET, END, 7, 100, true, true),
        Err(CustomError::ArithmeticUnderflow)
    );
    // A put without the native escrow.
    assert_eq!(
        l.create(ISSUER, OPT, ASSET, END, 7, 100, false, true),
        Err(CustomError::ArithmeticUnderflow)
    );
    assert!(l.get_contract(OPT).is_none());
    assert!(l.get_supply(OPT).is_none());
}

#[test]
fn put_issuance_with_huge_terms_fails_overflow() {
    let mut l = Ledger::initialize();
    l.fund_native(ISSUER, 1_000).unwrap();
    assert_eq!(
        l.create(ISSUER, OPT, ASSET, END, u64::MAX, 2, false, true),
        Err(CustomError::ArithmeticOverflow)
    );
}

#[test]
fn funding_past_the_limit_fails_overflow() {
    let mut l = Ledger::initialize();
    l.fund_native(ISSUER, u64::MAX).unwrap();
    assert_eq!(l.fund_native(ISSUER, 1), Err(CustomError::ArithmeticOverflow));
    l.fund_asset(ISSUER, ASSET, u64::MAX).unwrap();
    assert_eq!(l.fund_asset(ISSUER, ASSET, 1), Err(CustomError::ArithmeticOverflow));
}

#[test]
fn selling_tokens_one_does_not_hold_fails_underflow() {
    let mut l = issued_call();
    l.create_pool(ISSUER, OPT, 10, 30).unwrap();
    l.swap_pool(HOLDER, OPT, 10, 10, true).unwrap();
    // The outsider has no option tokens to sell into the pool.
    assert_eq!(
        l.swap_pool(OUTSIDER, OPT, 10, 5, false),
        Err(CustomError::ArithmeticUnderflow)
    );
}

#[test]
fn buyer_without_funds_fails_underflow() {
    let mut l = issued_call();
    l.list(ISSUER, OPT, 5, 3).unwrap();
    assert_eq!(
        l.buy(OUTSIDER, OPT, ISSUER, 3, 5),
        Err(CustomError::ArithmeticUnderflow)
    );
}

#[test]
fn exercising_a_missing_contract_is_refused() {
    let mut l = Ledger::initialize();
    assert_eq!(l.exercise(HOLDER, OPT, 1, END), Err(CustomError::InvalidAccount));
    assert_eq!(l.claim(ISSUER, OPT, END), Err(CustomError::InvalidAccount));
}
