//! End-to-end scenarios: issuance, pool pricing, marketplace round trips,
//! settlement, reclaim, and the conservation bookkeeping along the way.

use options::engine::Ledger;
use options::records::CustomError;

const ISSUER: u64 = 1;
const HOLDER: u64 = 2;
const OPT: u64 = 100;
const ASSET: u64 = 200;
const END: u64 = 1_000;

/// A ledger with both parties funded generously in native currency and the
/// issuer funded in the underlying asset.
fn funded() -> Ledger {
    let mut l = Ledger::initialize();
    l.fund_native(ISSUER, 1_000_000).unwrap();
    l.fund_native(HOLDER, 1_000_000).unwrap();
    l.fund_asset(ISSUER, ASSET, 1_000_000).unwrap();
    l
}

#[test]
fn create_call_escrows_underlying_and_mints() {
    let mut l = funded();
    l.create(ISSUER, OPT, ASSET, END, 7, 100, true, true).unwrap();
    assert_eq!(l.asset_balance(ISSUER, ASSET), 1_000_000 - 100);
    assert_eq!(l.collateral_balance(ASSET), 100);
    assert_eq!(l.option_balance(ISSUER, OPT), 100);
    let c = l.get_contract(OPT).unwrap();
    assert_eq!(c.creator, ISSUER);
    assert_eq!(c.underlying_mint, ASSET);
    assert_eq!(c.end_time, END);
    assert_eq!(c.strike_price, 7);
    assert_eq!(c.amount_unexercised, 100);
    assert!(c.call);
    assert!(c.resellable);
    let s = l.get_supply(OPT).unwrap();
    assert_eq!(s.minted, 100);
    assert_eq!(s.burned, 0);
}

#[test]
fn create_put_escrows_strike_times_amount_native() {
    let mut l = funded();
    l.create(ISSUER, OPT, ASSET, END, 7, 100, false, false).unwrap();
    assert_eq!(l.native_balance(ISSUER), 1_000_000 - 700);
    assert_eq!(l.authority_balance(), 700);
    assert_eq!(l.collateral_balance(ASSET), 0);
    assert_eq!(l.option_balance(ISSUER, OPT), 100);
}

#[test]
fn reissuance_is_rejected_and_terms_stand() {
    let mut l = funded();
    l.create(ISSUER, OPT, ASSET, END, 7, 100, true, true).unwrap();
    let r = l.create(ISSUER, OPT, ASSET, END + 5, 9, 50, true, false);
    assert_eq!(r, Err(CustomError::OptionAlreadyExists));
    let c = l.get_contract(OPT).unwrap();
    assert_eq!(c.strike_price, 7);
    assert_eq!(c.amount_unexercised, 100);
    assert_eq!(l.get_supply(OPT).unwrap().minted, 100);
    // The same id stays burned even after the contract record is gone:
    // reclaim destroys the contract, and re-issuance is still refused.
    l.claim(ISSUER, OPT, END).unwrap();
    assert!(l.get_contract(OPT).is_none());
    let r2 = l.create(ISSUER, OPT, ASSET, END, 7, 100, true, true);
    assert_eq!(r2, Err(CustomError::OptionAlreadyExists));
}

#[test]
fn pool_pricing_is_deterministic_from_pretrade_reserves() {
    let mut l = funded();
    l.create(ISSUER, OPT, ASSET, END, 7, 100, true, true).unwrap();
    l.create_pool(ISSUER, OPT, 10, 100).unwrap();
    let p = l.get_pool(OPT, 10).unwrap();
    assert_eq!(p.left, 100);
    assert_eq!(p.right, 0);
    assert_eq!(l.holder_vault_balance(OPT), 100);

    // right = 0 so the price is the base price: 20 tokens cost 20 * 10.
    let before = l.native_balance(HOLDER);
    l.swap_pool(HOLDER, OPT, 10, 20, true).unwrap();
    assert_eq!(before - l.native_balance(HOLDER), 200);
    assert_eq!(l.option_balance(HOLDER, OPT), 20);
    let p = l.get_pool(OPT, 10).unwrap();
    assert_eq!(p.left, 80);
    assert_eq!(p.right, 20);

    // price = 10 + floor(20 / 80) = 10: 10 more tokens cost 100.
    let before = l.native_balance(HOLDER);
    l.swap_pool(HOLDER, OPT, 10, 10, true).unwrap();
    assert_eq!(before - l.native_balance(HOLDER), 100);
    assert_eq!(l.option_balance(HOLDER, OPT), 30);
    assert_eq!(l.authority_balance(), 300);
}

#[test]
fn pool_price_steps_up_as_the_counter_reserve_grows() {
    let mut l = funded();
    l.create(ISSUER, OPT, ASSET, END, 7, 100, true, true).unwrap();
    l.create_pool(ISSUER, OPT, 2, 10).unwrap();
    // right = 0: 5 tokens at the base price of 2 cost 10.
    let before = l.native_balance(HOLDER);
    l.swap_pool(HOLDER, OPT, 2, 5, true).unwrap();
    assert_eq!(before - l.native_balance(HOLDER), 10);
    // Now left = right = 5: the unit price steps to 2 + floor(5 / 5) = 3.
    let before = l.native_balance(HOLDER);
    l.swap_pool(HOLDER, OPT, 2, 2, true).unwrap();
    assert_eq!(before - l.native_balance(HOLDER), 6);
}

#[test]
fn pool_sell_direction_pays_from_authority() {
    let mut l = funded();
    l.create(ISSUER, OPT, ASSET, END, 7, 100, true, true).unwrap();
    l.create_pool(ISSUER, OPT, 10, 100).unwrap();
    l.swap_pool(HOLDER, OPT, 10, 20, true).unwrap();
    // Sell 5 back: price is still 10 + floor(20 / 80) = 10, so 50 comes out
    // of the authority by direct debit.
    let before = l.native_balance(HOLDER);
    l.swap_pool(HOLDER, OPT, 10, 5, false).unwrap();
    assert_eq!(l.native_balance(HOLDER) - before, 50);
    assert_eq!(l.option_balance(HOLDER, OPT), 15);
    let p = l.get_pool(OPT, 10).unwrap();
    assert_eq!(p.left, 85);
    assert_eq!(p.right, 15);
    assert_eq!(l.authority_balance(), 150); // 20 bought at 10, 5 sold back at 10
    assert_eq!(l.holder_vault_balance(OPT), 85);
}

#[test]
fn listing_round_trip_pays_owner_and_delivers_tokens() {
    let mut l = funded();
    l.create(ISSUER, OPT, ASSET, END, 7, 100, true, true).unwrap();
    l.list(ISSUER, OPT, 5, 3).unwrap();
    assert_eq!(l.option_balance(ISSUER, OPT), 95);
    assert_eq!(l.holder_vault_balance(OPT), 5);
    let owner_before = l.native_balance(ISSUER);
    l.buy(HOLDER, OPT, ISSUER, 3, 5).unwrap();
    // 15 native units to the owner, 5 option tokens to the buyer.
    assert_eq!(l.native_balance(ISSUER) - owner_before, 15);
    assert_eq!(l.option_balance(HOLDER, OPT), 5);
    // The drained listing stays on the books until an explicit close.
    let listing = l.get_listing(OPT, ISSUER, 3).unwrap();
    assert_eq!(listing.amount, 0);
    l.close_listing(ISSUER, OPT, ISSUER, 3, END + 1).unwrap();
    assert!(l.get_listing(OPT, ISSUER, 3).is_none());
}

#[test]
fn listing_at_same_price_accumulates() {
    let mut l = funded();
    l.create(ISSUER, OPT, ASSET, END, 7, 100, true, true).unwrap();
    l.list(ISSUER, OPT, 5, 3).unwrap();
    l.list(ISSUER, OPT, 7, 3).unwrap();
    assert_eq!(l.get_listing(OPT, ISSUER, 3).unwrap().amount, 12);
    assert_eq!(l.holder_vault_balance(OPT), 12);
    // A different price is a different record.
    l.list(ISSUER, OPT, 4, 9).unwrap();
    assert_eq!(l.get_listing(OPT, ISSUER, 9).unwrap().amount, 4);
    assert_eq!(l.get_listing(OPT, ISSUER, 3).unwrap().amount, 12);
}

#[test]
fn exercise_call_swaps_strike_payment_for_collateral() {
    let mut l = funded();
    l.create(ISSUER, OPT, ASSET, END, 7, 100, true, true).unwrap();
    l.list(ISSUER, OPT, 50, 3).unwrap();
    l.buy(HOLDER, OPT, ISSUER, 3, 50).unwrap();
    let issuer_native = l.native_balance(ISSUER);
    let holder_native = l.native_balance(HOLDER);
    l.exercise(HOLDER, OPT, 50, END).unwrap();
    // The holder pays 50 * 7 to the issuer and takes 50 underlying units.
    assert_eq!(l.native_balance(ISSUER) - issuer_native, 350);
    assert_eq!(holder_native - l.native_balance(HOLDER), 350);
    assert_eq!(l.asset_balance(HOLDER, ASSET), 50);
    assert_eq!(l.collateral_balance(ASSET), 50);
    assert_eq!(l.option_balance(HOLDER, OPT), 0);
    assert_eq!(l.get_supply(OPT).unwrap().burned, 50);
    assert_eq!(l.get_contract(OPT).unwrap().amount_unexercised, 50);
}

#[test]
fn exercise_put_delivers_underlying_for_strike_payout() {
    let mut l = funded();
    l.fund_asset(HOLDER, ASSET, 1_000).unwrap();
    l.create(ISSUER, OPT, ASSET, END, 7, 100, false, true).unwrap();
    l.list(ISSUER, OPT, 10, 1).unwrap();
    l.buy(HOLDER, OPT, ISSUER, 1, 10).unwrap();
    let authority = l.authority_balance();
    let holder_native = l.native_balance(HOLDER);
    l.exercise(HOLDER, OPT, 4, END).unwrap();
    // The holder delivers 4 underlying units to the issuer and the
    // authority pays out 4 * 7 by direct debit.
    assert_eq!(l.asset_balance(ISSUER, ASSET), 1_000_000 + 4);
    assert_eq!(l.asset_balance(HOLDER, ASSET), 996);
    assert_eq!(authority - l.authority_balance(), 28);
    assert_eq!(l.native_balance(HOLDER) - holder_native, 28);
    assert_eq!(l.get_contract(OPT).unwrap().amount_unexercised, 96);
    assert_eq!(l.get_supply(OPT).unwrap().burned, 4);
}

#[test]
fn claim_call_returns_unexercised_collateral_and_ends_contract() {
    let mut l = funded();
    l.create(ISSUER, OPT, ASSET, END, 7, 100, true, true).unwrap();
    l.list(ISSUER, OPT, 50, 3).unwrap();
    l.buy(HOLDER, OPT, ISSUER, 3, 50).unwrap();
    l.exercise(HOLDER, OPT, 30, END).unwrap();
    let issuer_asset = l.asset_balance(ISSUER, ASSET);
    l.claim(ISSUER, OPT, END).unwrap();
    // 70 unexercised units of collateral come back; the record is gone.
    assert_eq!(l.asset_balance(ISSUER, ASSET) - issuer_asset, 70);
    assert_eq!(l.collateral_balance(ASSET), 0);
    assert!(l.get_contract(OPT).is_none());
    // Supply stays on the books: 20 tokens still circulate, unredeemable.
    let s = l.get_supply(OPT).unwrap();
    assert_eq!(s.minted - s.burned, 70);
    assert_eq!(l.option_balance(HOLDER, OPT), 20);
}

#[test]
fn claim_put_returns_remaining_native_escrow() {
    let mut l = funded();
    l.create(ISSUER, OPT, ASSET, END, 7, 100, false, true).unwrap();
    let issuer_native = l.native_balance(ISSUER);
    l.claim(ISSUER, OPT, END + 1).unwrap();
    assert_eq!(l.native_balance(ISSUER) - issuer_native, 700);
    assert_eq!(l.authority_balance(), 0);
    assert!(l.get_contract(OPT).is_none());
}

#[test]
fn collateral_drains_while_pool_still_advertises_its_reserve() {
    // The engine conserves option tokens (110 minted here: 60 pooled, 50
    // sold on), so a holder can exercise 50 while the pool still advertises
    // 60 — draining the collateral vault to 60 against which those 60 are
    // the only cover, and reclaim then empties it entirely.
    let mut l = funded();
    l.create(ISSUER, OPT, ASSET, END, 7, 110, true, true).unwrap();
    assert_eq!(l.collateral_balance(ASSET), 110);
    l.create_pool(ISSUER, OPT, 10, 60).unwrap();
    l.list(ISSUER, OPT, 50, 3).unwrap();
    l.buy(HOLDER, OPT, ISSUER, 3, 50).unwrap();
    l.exercise(HOLDER, OPT, 50, END).unwrap();
    // The vault lost 50 while the pool's advertised reserve is untouched.
    assert_eq!(l.collateral_balance(ASSET), 60);
    assert_eq!(l.get_pool(OPT, 10).unwrap().left, 60);
    // After expiry the issuer reclaims the remaining 60: the pool's tokens
    // are now backed by nothing.
    l.claim(ISSUER, OPT, END + 1).unwrap();
    assert_eq!(l.collateral_balance(ASSET), 0);
    assert_eq!(l.get_pool(OPT, 10).unwrap().left, 60);
}

#[test]
fn close_pool_strands_reserves_in_the_vault() {
    let mut l = funded();
    l.create(ISSUER, OPT, ASSET, END, 7, 100, true, true).unwrap();
    l.create_pool(ISSUER, OPT, 10, 60).unwrap();
    assert_eq!(l.holder_vault_balance(OPT), 60);
    l.claim(ISSUER, OPT, END).unwrap();
    // Contract destroyed: the permissive close is allowed, and nothing
    // sweeps the reserves out of the vault.
    l.close_pool(OPT, 10, END).unwrap();
    assert!(l.get_pool(OPT, 10).is_none());
    assert_eq!(l.holder_vault_balance(OPT), 60);
}

#[test]
fn close_pool_after_expiry_without_claim() {
    let mut l = funded();
    l.create(ISSUER, OPT, ASSET, END, 7, 100, true, true).unwrap();
    l.create_pool(ISSUER, OPT, 10, 10).unwrap();
    assert_eq!(l.close_pool(OPT, 10, END), Err(CustomError::OptionNotExpired));
    l.close_pool(OPT, 10, END + 1).unwrap();
    assert!(l.get_pool(OPT, 10).is_none());
}

#[test]
fn supply_conservation_across_a_full_session() {
    let mut l = funded();
    l.create(ISSUER, OPT, ASSET, END, 7, 100, true, true).unwrap();
    l.create_pool(ISSUER, OPT, 10, 30).unwrap();
    l.list(ISSUER, OPT, 20, 3).unwrap();
    l.buy(HOLDER, OPT, ISSUER, 3, 15).unwrap();
    l.swap_pool(HOLDER, OPT, 10, 5, true).unwrap();
    l.exercise(HOLDER, OPT, 8, END).unwrap();
    // minted - burned == wallets + holder vault, at this and every point.
    let s = l.get_supply(OPT).unwrap();
    let circulating = s.minted - s.burned;
    let wallets = l.option_balance(ISSUER, OPT) + l.option_balance(HOLDER, OPT);
    assert_eq!(circulating, wallets + l.holder_vault_balance(OPT));
    assert_eq!(s.minted, 100);
    assert_eq!(s.burned, 8);
    // And the vault covers what the pool advertises plus what is listed.
    let p = l.get_pool(OPT, 10).unwrap();
    let listed = l.get_listing(OPT, ISSUER, 3).unwrap().amount;
    assert!(l.holder_vault_balance(OPT) >= p.left + listed);
}

#[test]
fn native_currency_and_underlying_are_conserved() {
    let mut l = funded();
    let native_total =
        l.native_balance(ISSUER) + l.native_balance(HOLDER) + l.authority_balance();
    let asset_total = l.asset_balance(ISSUER, ASSET) + l.asset_balance(HOLDER, ASSET)
        + l.collateral_balance(ASSET);
    l.create(ISSUER, OPT, ASSET, END, 7, 100, true, true).unwrap();
    l.create_pool(ISSUER, OPT, 10, 30).unwrap();
    l.swap_pool(HOLDER, OPT, 10, 12, true).unwrap();
    l.swap_pool(HOLDER, OPT, 10, 2, false).unwrap();
    l.list(ISSUER, OPT, 20, 3).unwrap();
    l.buy(HOLDER, OPT, ISSUER, 3, 15).unwrap();
    l.exercise(HOLDER, OPT, 9, END).unwrap();
    l.claim(ISSUER, OPT, END + 1).unwrap();
    // Trading only moves money and collateral between parties, the
    // authority and the vaults: the totals never change.
    assert_eq!(
        l.native_balance(ISSUER) + l.native_balance(HOLDER) + l.authority_balance(),
        native_total
    );
    assert_eq!(
        l.asset_balance(ISSUER, ASSET) + l.asset_balance(HOLDER, ASSET)
            + l.collateral_balance(ASSET),
        asset_total
    );
}

#[test]
fn holder_account_can_be_opened_once() {
    let mut l = Ledger::initialize();
    l.create_holder_account(OPT).unwrap();
    assert_eq!(l.holder_vault_balance(OPT), 0);
    assert_eq!(l.create_holder_account(OPT), Err(CustomError::InvalidAccount));
}
