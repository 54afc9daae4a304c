//! The record types of the ledger and the error taxonomy.

use vstd::prelude::*;

verus! {

/// Composite key addressing one record of the ledger.
///
/// Every record kind lives in its own table, so the three components carry a
/// different meaning per table:
/// - contract / supply / collateral vault / holder vault / native balance:
///   `a` is the option-token id, asset id, or account id; `b` and `c` are 0;
/// - option-token and underlying-asset wallet balances: `a` is the holding
///   account, `b` the token id;
/// - pool: `a` is the option-token id, `b` the base price;
/// - listing: `a` is the option-token id, `b` the owner, `c` the ask price.
#[derive(Clone, Copy, PartialEq, Eq, Structural, Debug)]
pub struct Key {
    pub a: u64,
    pub b: u64,
    pub c: u64,
}

/// Terms of one option contract, written at issuance and decremented by
/// settlement. One option-token series exists per contract.
#[derive(Clone, Copy, PartialEq, Eq, Structural, Debug)]
pub struct OptionDataAccount {
    /// The issuer, who escrowed the collateral and may reclaim it at expiry.
    pub creator: u64,
    /// The underlying asset the contract delivers (call) or accepts (put).
    pub underlying_mint: u64,
    /// Expiry timestamp: exercise runs at or before it, reclaim at or after.
    pub end_time: u64,
    /// Price per unit at which the underlying is exchanged on exercise.
    pub strike_price: u64,
    /// Units whose collateral has not yet been paid out by exercise.
    pub amount_unexercised: u64,
    /// True for a call (underlying escrowed), false for a put (currency escrowed).
    pub call: bool,
    /// Recorded at issuance; the engine stores it but never gates on it.
    pub resellable: bool,
}

/// Cumulative mint and burn totals of one option-token series. The record
/// outlives its contract, so conservation can be stated at every point.
#[derive(Clone, Copy, PartialEq, Eq, Structural, Debug)]
pub struct Supply {
    pub minted: u64,
    pub burned: u64,
}

/// A two-reserve bonding pool pricing option tokens against native currency.
///
/// The quoted unit price is `base_price + right / left` (integer division),
/// read from the pre-trade reserves.
#[derive(Clone, Copy, PartialEq, Eq, Structural, Debug)]
pub struct Pool {
    /// The option-token id this pool trades; mirrors the key.
    pub option_mint: u64,
    /// The price floor; mirrors the key.
    pub base_price: u64,
    /// Option-token reserve, held in the holder vault.
    pub left: u64,
    /// Counter-value reserve.
    pub right: u64,
}

/// A standing fixed-price ask for option tokens, settled peer to peer.
#[derive(Clone, Copy, PartialEq, Eq, Structural, Debug)]
pub struct Listing {
    /// The underlying asset of the listed option, copied from its contract.
    pub underlying_mint: u64,
    /// The option-token id on sale; mirrors the key.
    pub option_mint: u64,
    /// The seller, paid directly by each buyer; mirrors the key.
    pub owner: u64,
    /// Option tokens still on sale, escrowed in the holder vault.
    pub amount: u64,
    /// Ask price per token; mirrors the key.
    pub price: u64,
}

/// The typed failures of the engine. Every operation aborts atomically with
/// one of these; no partial effect remains.
#[derive(Clone, Copy, PartialEq, Eq, Structural, Debug)]
pub enum CustomError {
    StrikePriceNotReached,
    TokenPriceNotFound,
    /// A buy asked for more tokens than the listing still holds.
    ListingEmpty,
    /// The signer is not the owner or creator the record requires.
    WrongOwner,
    /// Settlement asked for more units than remain unexercised.
    NotEnoughOptionToken,
    /// Exercise attempted after the contract's expiry.
    OptionExpired,
    /// Reclaim or close attempted before the contract's expiry.
    OptionNotExpired,
    /// A referenced record does not exist, or one to be created already does.
    InvalidAccount,
    /// The pool lacks the requested reserve in the requested direction.
    PoolEmpty,
    /// The pool's counter-value reserve cannot take the requested amount.
    PoolFull,
    /// A contract already exists for this option-token id; re-issuance would
    /// overwrite its terms without reconciling outstanding supply.
    OptionAlreadyExists,
    /// A balance-affecting addition or multiplication would exceed `u64::MAX`.
    ArithmeticOverflow,
    /// A balance-affecting subtraction would drop below zero.
    ArithmeticUnderflow,
}

} // verus!
