//! The conservation laws of the engine, stated on their own.
//!
//! Both are clauses of the ledger invariant, which every operation requires
//! and re-establishes; the proof functions here put them in the terms a
//! reader of the model expects, for any series id and any reachable ledger.
//!
//! The currency-side laws are two-state and so live on the operations
//! themselves: every trading operation ensures
//! `total_native(final(self)@) == total_native(old(self)@)` where it moves
//! native currency, and `total_asset` likewise where it moves the underlying
//! — the engine shuffles money and collateral, it never prints either. Only
//! the funding operations raise the totals, by exactly what they deposit.

use crate::engine::Ledger;
use crate::model::{
    circulating, listing_sum, pool_left_sum, vault_of, wallet_sum,
};
use vstd::prelude::*;

verus! {

/// Supply conservation: at every point, for every option-token series, what
/// was minted and not burned equals what the wallets hold plus what the
/// program's holder vault custodies. No operation creates, loses or
/// double-counts an option token.
pub proof fn lemma_supply_conservation(l: Ledger, option_id: u64)
    requires
        l.wf(),
    ensures
        circulating(l@, option_id) == vault_of(l@, option_id) + wallet_sum(l@, option_id),
{
}

/// Escrow coverage: at every point, for every option-token series, the
/// holder vault holds at least every reserve the pools advertise plus
/// everything the listings offer. Pool swaps and marketplace fills can
/// always deliver the option tokens they promise — the shortfall hazard of
/// this design is on the collateral side, not here.
pub proof fn lemma_escrow_coverage(l: Ledger, option_id: u64)
    requires
        l.wf(),
    ensures
        vault_of(l@, option_id) >= pool_left_sum(l@, option_id) + listing_sum(l@, option_id),
{
}

} // verus!
