//! The mathematical model of the ledger and its invariant.
//!
//! A `LedgerModel` is the view of the executable ledger: one entry sequence
//! per record kind, plus the program authority's native balance. Contracts of
//! the operations speak of the derived maps; the conservation laws fold over
//! the sequences.

use crate::records::{Key, Listing, OptionDataAccount, Pool, Supply};
use crate::store::{as_map, sum_by, unique_keys};
use vstd::prelude::*;

verus! {

/// The whole state of the engine, as mathematics.
pub ghost struct LedgerModel {
    /// Option contracts, by option-token id.
    pub contracts: Seq<(Key, OptionDataAccount)>,
    /// Mint and burn totals, by option-token id; never removed.
    pub supplies: Seq<(Key, Supply)>,
    /// Bonding pools, by (option-token id, base price).
    pub pools: Seq<(Key, Pool)>,
    /// Marketplace listings, by (option-token id, owner, price).
    pub listings: Seq<(Key, Listing)>,
    /// Option-token wallet balances, by (account, option-token id).
    pub opt_bal: Seq<(Key, u64)>,
    /// Underlying-asset wallet balances, by (account, asset id).
    pub asset_bal: Seq<(Key, u64)>,
    /// Locked underlying collateral, by asset id.
    pub coll_vault: Seq<(Key, u64)>,
    /// Program-custodied option tokens backing pools and listings, by id.
    pub holder_vault: Seq<(Key, u64)>,
    /// Native-currency balances, by account.
    pub native_bal: Seq<(Key, u64)>,
    /// Native currency held by the program authority.
    pub authority_native: u64,
}

/// Key of a record addressed by one id or account.
pub open spec fn record_key(a: u64) -> Key {
    Key { a, b: 0, c: 0 }
}

/// Key of a wallet balance or a pool: two components.
pub open spec fn pair_key(a: u64, b: u64) -> Key {
    Key { a, b, c: 0 }
}

/// Key of a listing: option-token id, owner, price.
pub open spec fn triple_key(a: u64, b: u64, c: u64) -> Key {
    Key { a, b, c }
}

pub open spec fn contracts_m(m: LedgerModel) -> Map<Key, OptionDataAccount> {
    as_map(m.contracts)
}

pub open spec fn supplies_m(m: LedgerModel) -> Map<Key, Supply> {
    as_map(m.supplies)
}

pub open spec fn pools_m(m: LedgerModel) -> Map<Key, Pool> {
    as_map(m.pools)
}

pub open spec fn listings_m(m: LedgerModel) -> Map<Key, Listing> {
    as_map(m.listings)
}

pub open spec fn opt_bal_m(m: LedgerModel) -> Map<Key, u64> {
    as_map(m.opt_bal)
}

pub open spec fn asset_bal_m(m: LedgerModel) -> Map<Key, u64> {
    as_map(m.asset_bal)
}

pub open spec fn coll_m(m: LedgerModel) -> Map<Key, u64> {
    as_map(m.coll_vault)
}

pub open spec fn holder_m(m: LedgerModel) -> Map<Key, u64> {
    as_map(m.holder_vault)
}

pub open spec fn native_m(m: LedgerModel) -> Map<Key, u64> {
    as_map(m.native_bal)
}

/// A balance map read: absent means zero.
pub open spec fn tbal(m: Map<Key, u64>, k: Key) -> u64 {
    if m.dom().contains(k) {
        m[k]
    } else {
        0
    }
}

pub open spec fn contract_of(m: LedgerModel, id: u64) -> Option<OptionDataAccount> {
    if contracts_m(m).dom().contains(record_key(id)) {
        Some(contracts_m(m)[record_key(id)])
    } else {
        None
    }
}

pub open spec fn supply_of(m: LedgerModel, id: u64) -> Option<Supply> {
    if supplies_m(m).dom().contains(record_key(id)) {
        Some(supplies_m(m)[record_key(id)])
    } else {
        None
    }
}

pub open spec fn pool_of(m: LedgerModel, id: u64, base_price: u64) -> Option<Pool> {
    if pools_m(m).dom().contains(pair_key(id, base_price)) {
        Some(pools_m(m)[pair_key(id, base_price)])
    } else {
        None
    }
}

pub open spec fn listing_of(m: LedgerModel, id: u64, owner: u64, price: u64) -> Option<Listing> {
    if listings_m(m).dom().contains(triple_key(id, owner, price)) {
        Some(listings_m(m)[triple_key(id, owner, price)])
    } else {
        None
    }
}

/// Option tokens `acct` holds of series `id`.
pub open spec fn option_balance_of(m: LedgerModel, acct: u64, id: u64) -> u64 {
    tbal(opt_bal_m(m), pair_key(acct, id))
}

/// Underlying-asset units `acct` holds of `asset`.
pub open spec fn asset_balance_of(m: LedgerModel, acct: u64, asset: u64) -> u64 {
    tbal(asset_bal_m(m), pair_key(acct, asset))
}

/// Native currency `acct` holds.
pub open spec fn native_of(m: LedgerModel, acct: u64) -> u64 {
    tbal(native_m(m), record_key(acct))
}

/// Option tokens of series `id` in the program's holder vault.
pub open spec fn vault_of(m: LedgerModel, id: u64) -> u64 {
    tbal(holder_m(m), record_key(id))
}

/// Locked underlying collateral of `asset`.
pub open spec fn collateral_of(m: LedgerModel, asset: u64) -> u64 {
    tbal(coll_m(m), record_key(asset))
}

/// Tokens a listing still offers; zero when no listing stands at the key.
pub open spec fn listing_amount_of(m: LedgerModel, id: u64, owner: u64, price: u64) -> u64 {
    match listing_of(m, id, owner, price) {
        Some(l) => l.amount,
        None => 0,
    }
}

/// Tokens of series `id` outside the burn pile: minted minus burned.
pub open spec fn circulating(m: LedgerModel, id: u64) -> int {
    match supply_of(m, id) {
        Some(s) => s.minted - s.burned,
        None => 0,
    }
}

/// Contribution of one wallet entry to the circulation of series `id`.
pub open spec fn wallet_contrib(id: u64) -> spec_fn((Key, u64)) -> int {
    |e: (Key, u64)| if e.0.b == id { e.1 as int } else { 0 }
}

/// Option tokens of series `id` spread over all wallets.
pub open spec fn wallet_sum(m: LedgerModel, id: u64) -> int {
    sum_by(m.opt_bal, wallet_contrib(id))
}

/// Contribution of one pool entry to the escrowed stock of series `id`.
pub open spec fn pool_contrib(id: u64) -> spec_fn((Key, Pool)) -> int {
    |e: (Key, Pool)| if e.0.a == id { e.1.left as int } else { 0 }
}

/// Option-token reserves of series `id` advertised by all pools.
pub open spec fn pool_left_sum(m: LedgerModel, id: u64) -> int {
    sum_by(m.pools, pool_contrib(id))
}

/// Contribution of one listing entry to the escrowed stock of series `id`.
pub open spec fn listing_contrib(id: u64) -> spec_fn((Key, Listing)) -> int {
    |e: (Key, Listing)| if e.0.a == id { e.1.amount as int } else { 0 }
}

/// Option tokens of series `id` on sale across all listings.
pub open spec fn listing_sum(m: LedgerModel, id: u64) -> int {
    sum_by(m.listings, listing_contrib(id))
}

/// Contribution of one native balance entry to the currency total.
pub open spec fn coin_contrib() -> spec_fn((Key, u64)) -> int {
    |e: (Key, u64)| e.1 as int
}

/// All native currency the ledger knows: every account balance plus what
/// the program authority holds. Trading operations conserve it; only
/// funding raises it.
pub open spec fn total_native(m: LedgerModel) -> int {
    sum_by(m.native_bal, coin_contrib()) + m.authority_native
}

/// All units of one underlying asset the ledger knows: every wallet plus
/// the locked collateral. Issuance, settlement and reclaim only move them;
/// only funding raises them.
pub open spec fn total_asset(m: LedgerModel, asset: u64) -> int {
    sum_by(m.asset_bal, wallet_contrib(asset)) + collateral_of(m, asset)
}

/// The ledger invariant. Every operation preserves it.
///
/// Beyond well-formed storage and keys mirrored in the records, it carries
/// the two money-conservation facts of the engine: every minted and unburned
/// token sits either in a wallet or in the holder vault, and the holder vault
/// covers everything pools advertise and listings offer.
pub open spec fn inv(m: LedgerModel) -> bool {
    &&& unique_keys(m.contracts)
    &&& unique_keys(m.supplies)
    &&& unique_keys(m.pools)
    &&& unique_keys(m.listings)
    &&& unique_keys(m.opt_bal)
    &&& unique_keys(m.asset_bal)
    &&& unique_keys(m.coll_vault)
    &&& unique_keys(m.holder_vault)
    &&& unique_keys(m.native_bal)
    &&& forall|k: Key| #[trigger]
        supplies_m(m).dom().contains(k) ==> supplies_m(m)[k].burned <= supplies_m(m)[k].minted
    &&& forall|k: Key| #[trigger] contracts_m(m).dom().contains(k) ==> {
        &&& supplies_m(m).dom().contains(k)
        &&& contracts_m(m)[k].amount_unexercised <= supplies_m(m)[k].minted
    }
    &&& forall|k: Key| #[trigger] pools_m(m).dom().contains(k) ==> {
        &&& pools_m(m)[k].option_mint == k.a
        &&& pools_m(m)[k].base_price == k.b
    }
    &&& forall|k: Key| #[trigger] listings_m(m).dom().contains(k) ==> {
        &&& listings_m(m)[k].option_mint == k.a
        &&& listings_m(m)[k].owner == k.b
        &&& listings_m(m)[k].price == k.c
    }
    &&& forall|id: u64| #[trigger] circulating(m, id) == vault_of(m, id) + wallet_sum(m, id)
    &&& forall|id: u64| #[trigger] vault_of(m, id) >= pool_left_sum(m, id) + listing_sum(m, id)
}

/// The supply clause of the invariant carries over when supplies are untouched.
pub proof fn lemma_supplies_clause(m0: LedgerModel, m1: LedgerModel)
    requires
        inv(m0),
        m1.supplies == m0.supplies,
    ensures
        forall|k: Key| #[trigger]
            supplies_m(m1).dom().contains(k) ==> supplies_m(m1)[k].burned
                <= supplies_m(m1)[k].minted,
{
    assert forall|k: Key| #[trigger] supplies_m(m1).dom().contains(k) implies supplies_m(
        m1,
    )[k].burned <= supplies_m(m1)[k].minted by {
        assert(supplies_m(m0).dom().contains(k));
    }
}

/// The contract clause of the invariant carries over when contracts and
/// supplies are untouched.
pub proof fn lemma_contracts_clause(m0: LedgerModel, m1: LedgerModel)
    requires
        inv(m0),
        m1.contracts == m0.contracts,
        m1.supplies == m0.supplies,
    ensures
        forall|k: Key| #[trigger] contracts_m(m1).dom().contains(k) ==> {
            &&& supplies_m(m1).dom().contains(k)
            &&& contracts_m(m1)[k].amount_unexercised <= supplies_m(m1)[k].minted
        },
{
    assert forall|k: Key| #[trigger] contracts_m(m1).dom().contains(k) implies {
        &&& supplies_m(m1).dom().contains(k)
        &&& contracts_m(m1)[k].amount_unexercised <= supplies_m(m1)[k].minted
    } by {
        assert(contracts_m(m0).dom().contains(k));
    }
}

/// The pool clause of the invariant carries over when pools are untouched.
pub proof fn lemma_pools_clause(m0: LedgerModel, m1: LedgerModel)
    requires
        inv(m0),
        m1.pools == m0.pools,
    ensures
        forall|k: Key| #[trigger] pools_m(m1).dom().contains(k) ==> {
            &&& pools_m(m1)[k].option_mint == k.a
            &&& pools_m(m1)[k].base_price == k.b
        },
{
    assert forall|k: Key| #[trigger] pools_m(m1).dom().contains(k) implies {
        &&& pools_m(m1)[k].option_mint == k.a
        &&& pools_m(m1)[k].base_price == k.b
    } by {
        assert(pools_m(m0).dom().contains(k));
    }
}

/// The listing clause of the invariant carries over when listings are untouched.
pub proof fn lemma_listings_clause(m0: LedgerModel, m1: LedgerModel)
    requires
        inv(m0),
        m1.listings == m0.listings,
    ensures
        forall|k: Key| #[trigger] listings_m(m1).dom().contains(k) ==> {
            &&& listings_m(m1)[k].option_mint == k.a
            &&& listings_m(m1)[k].owner == k.b
            &&& listings_m(m1)[k].price == k.c
        },
{
    assert forall|k: Key| #[trigger] listings_m(m1).dom().contains(k) implies {
        &&& listings_m(m1)[k].option_mint == k.a
        &&& listings_m(m1)[k].owner == k.b
        &&& listings_m(m1)[k].price == k.c
    } by {
        assert(listings_m(m0).dom().contains(k));
    }
}

/// The record-shaped clauses of the invariant carry over to a state whose
/// contract, supply, pool and listing tables are the old ones.
pub proof fn lemma_records_untouched(m0: LedgerModel, m1: LedgerModel)
    requires
        inv(m0),
        m1.contracts == m0.contracts,
        m1.supplies == m0.supplies,
        m1.pools == m0.pools,
        m1.listings == m0.listings,
    ensures
        forall|k: Key| #[trigger]
            supplies_m(m1).dom().contains(k) ==> supplies_m(m1)[k].burned
                <= supplies_m(m1)[k].minted,
        forall|k: Key| #[trigger] contracts_m(m1).dom().contains(k) ==> {
            &&& supplies_m(m1).dom().contains(k)
            &&& contracts_m(m1)[k].amount_unexercised <= supplies_m(m1)[k].minted
        },
        forall|k: Key| #[trigger] pools_m(m1).dom().contains(k) ==> {
            &&& pools_m(m1)[k].option_mint == k.a
            &&& pools_m(m1)[k].base_price == k.b
        },
        forall|k: Key| #[trigger] listings_m(m1).dom().contains(k) ==> {
            &&& listings_m(m1)[k].option_mint == k.a
            &&& listings_m(m1)[k].owner == k.b
            &&& listings_m(m1)[k].price == k.c
        },
{
    lemma_supplies_clause(m0, m1);
    lemma_contracts_clause(m0, m1);
    lemma_pools_clause(m0, m1);
    lemma_listings_clause(m0, m1);
}

/// One wallet holds at most the walletwide total of its series.
pub proof fn lemma_wallet_le_sum(m: LedgerModel, acct: u64, id: u64)
    requires
        unique_keys(m.opt_bal),
    ensures
        0 <= option_balance_of(m, acct, id) <= wallet_sum(m, id),
{
    let f = wallet_contrib(id);
    assert(forall|e: (Key, u64)| #[trigger] f(e) >= 0);
    let k = pair_key(acct, id);
    crate::store::lemma_lookup_as_map(m.opt_bal, k);
    if opt_bal_m(m).dom().contains(k) {
        crate::store::lemma_lookup_index(m.opt_bal, k);
        let i = choose|i: int|
            0 <= i < m.opt_bal.len() && (#[trigger] m.opt_bal[i]) == (
            k,
            crate::store::lookup(m.opt_bal, k).unwrap(),
            );
        crate::store::lemma_sum_elem(m.opt_bal, f, i);
    } else {
        crate::store::lemma_sum_nonneg(m.opt_bal, f);
    }
}

/// One pool's reserve is at most the poolwide total of its series.
pub proof fn lemma_pool_le_sum(m: LedgerModel, id: u64, base_price: u64)
    requires
        unique_keys(m.pools),
        pool_of(m, id, base_price) is Some,
    ensures
        pool_of(m, id, base_price).unwrap().left <= pool_left_sum(m, id),
{
    let f = pool_contrib(id);
    assert(forall|e: (Key, Pool)| #[trigger] f(e) >= 0);
    let k = pair_key(id, base_price);
    crate::store::lemma_lookup_as_map(m.pools, k);
    crate::store::lemma_lookup_index(m.pools, k);
    let i = choose|i: int|
        0 <= i < m.pools.len() && (#[trigger] m.pools[i]) == (
        k,
        crate::store::lookup(m.pools, k).unwrap(),
        );
    crate::store::lemma_sum_elem(m.pools, f, i);
}

/// One listing offers at most the marketwide total of its series.
pub proof fn lemma_listing_le_sum(m: LedgerModel, id: u64, owner: u64, price: u64)
    requires
        unique_keys(m.listings),
        listing_of(m, id, owner, price) is Some,
    ensures
        listing_of(m, id, owner, price).unwrap().amount <= listing_sum(m, id),
{
    let f = listing_contrib(id);
    assert(forall|e: (Key, Listing)| #[trigger] f(e) >= 0);
    let k = triple_key(id, owner, price);
    crate::store::lemma_lookup_as_map(m.listings, k);
    crate::store::lemma_lookup_index(m.listings, k);
    let i = choose|i: int|
        0 <= i < m.listings.len() && (#[trigger] m.listings[i]) == (
        k,
        crate::store::lookup(m.listings, k).unwrap(),
        );
    crate::store::lemma_sum_elem(m.listings, f, i);
}

/// The two escrow sums are non-negative.
pub proof fn lemma_escrow_sums_nonneg(m: LedgerModel, id: u64)
    ensures
        pool_left_sum(m, id) >= 0,
        listing_sum(m, id) >= 0,
        wallet_sum(m, id) >= 0,
{
    let fp = pool_contrib(id);
    assert(forall|e: (Key, Pool)| #[trigger] fp(e) >= 0);
    crate::store::lemma_sum_nonneg(m.pools, fp);
    let fl = listing_contrib(id);
    assert(forall|e: (Key, Listing)| #[trigger] fl(e) >= 0);
    crate::store::lemma_sum_nonneg(m.listings, fl);
    let fw = wallet_contrib(id);
    assert(forall|e: (Key, u64)| #[trigger] fw(e) >= 0);
    crate::store::lemma_sum_nonneg(m.opt_bal, fw);
}

} // verus!
