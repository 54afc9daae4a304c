//! The ledger and its operations.
//!
//! Each operation is one atomic state transition: it validates everything
//! first, then applies its paired effects, so a typed error always leaves the
//! ledger exactly as it was. Every balance-affecting addition, subtraction
//! and multiplication is checked.

use crate::model::{
    asset_bal_m, asset_balance_of, circulating, coin_contrib, coll_m, collateral_of, contract_of,
    contracts_m, holder_m, inv, LedgerModel, listing_amount_of, listing_contrib, listing_of,
    listing_sum, listings_m, native_m, native_of, opt_bal_m, option_balance_of, pair_key,
    pool_contrib, pool_left_sum, pool_of, pools_m, record_key, supplies_m, supply_of, tbal,
    total_asset, total_native, triple_key, vault_of, wallet_contrib, wallet_sum,
};
use crate::records::{CustomError, Key, Listing, OptionDataAccount, Pool, Supply};
use crate::store::{as_map, sum_by, Table};
use vstd::prelude::*;

verus! {

/// The balance under `k`, absent entries reading as zero.
fn read_bal(t: &Table<u64>, k: Key) -> (v: u64)
    requires
        t.wf(),
    ensures
        v == tbal(as_map(t@), k),
{
    match t.get(k) {
        Some(v) => v,
        None => 0,
    }
}

/// Adds `amt` to the balance under `k`; the caller has checked the fit.
fn credit(t: &mut Table<u64>, k: Key, amt: u64)
    requires
        old(t).wf(),
        tbal(as_map(old(t)@), k) + amt <= u64::MAX,
    ensures
        final(t).wf(),
        as_map(final(t)@) == as_map(old(t)@).insert(
            k,
            (tbal(as_map(old(t)@), k) + amt) as u64,
        ),
        forall|f: spec_fn((Key, u64)) -> int|
            f((k, 0u64)) == 0 ==> #[trigger] sum_by(final(t)@, f) == sum_by(old(t)@, f) + f(
                (k, (tbal(as_map(old(t)@), k) + amt) as u64),
            ) - f((k, tbal(as_map(old(t)@), k))),
{
    let cur = read_bal(t, k);
    t.put(k, cur + amt);
}

/// Takes `amt` from the balance under `k`; the caller has checked cover.
fn debit(t: &mut Table<u64>, k: Key, amt: u64)
    requires
        old(t).wf(),
        amt <= tbal(as_map(old(t)@), k),
    ensures
        final(t).wf(),
        as_map(final(t)@) == as_map(old(t)@).insert(
            k,
            (tbal(as_map(old(t)@), k) - amt) as u64,
        ),
        forall|f: spec_fn((Key, u64)) -> int|
            f((k, 0u64)) == 0 ==> #[trigger] sum_by(final(t)@, f) == sum_by(old(t)@, f) + f(
                (k, (tbal(as_map(old(t)@), k) - amt) as u64),
            ) - f((k, tbal(as_map(old(t)@), k))),
{
    let cur = read_bal(t, k);
    t.put(k, cur - amt);
}

/// The decision `create` reaches, in the order its checks run: re-issuance on
/// an id that already has a contract or a supply record is rejected, then the
/// collateral intake is checked against the caller's balance and the vault's
/// headroom (call: `amount` underlying units; put: `strike_price * amount`
/// native units).
pub open spec fn create_outcome(
    m: LedgerModel,
    signer: u64,
    option_id: u64,
    underlying: u64,
    strike_price: u64,
    amount: u64,
    call: bool,
) -> Result<(), CustomError> {
    if contract_of(m, option_id) is Some || supply_of(m, option_id) is Some {
        Err(CustomError::OptionAlreadyExists)
    } else if call {
        if asset_balance_of(m, signer, underlying) < amount {
            Err(CustomError::ArithmeticUnderflow)
        } else if collateral_of(m, underlying) + amount > u64::MAX {
            Err(CustomError::ArithmeticOverflow)
        } else {
            Ok(())
        }
    } else {
        if strike_price * amount > u64::MAX {
            Err(CustomError::ArithmeticOverflow)
        } else if native_of(m, signer) < strike_price * amount {
            Err(CustomError::ArithmeticUnderflow)
        } else if m.authority_native + strike_price * amount > u64::MAX {
            Err(CustomError::ArithmeticOverflow)
        } else {
            Ok(())
        }
    }
}

/// The decision `create_pool` reaches: the keyed pool slot must be free, and
/// the caller must hold the option tokens to lock.
pub open spec fn create_pool_outcome(
    m: LedgerModel,
    signer: u64,
    option_id: u64,
    base_price: u64,
    amount: u64,
) -> Result<(), CustomError> {
    if pool_of(m, option_id, base_price) is Some {
        Err(CustomError::InvalidAccount)
    } else if option_balance_of(m, signer, option_id) < amount {
        Err(CustomError::ArithmeticUnderflow)
    } else {
        Ok(())
    }
}

/// The unit price a swap charges: the base price plus the integer quotient
/// of the pre-trade reserves. One price per call; a multi-unit swap does not
/// walk the curve.
pub open spec fn pool_price(base_price: u64, p: Pool) -> int {
    base_price + p.right as int / p.left as int
}

/// The decision `swap_pool` reaches, in the order its checks run: the pool
/// must exist and have option tokens left (the price is undefined on an
/// empty `left`), the requested direction must have reserve and headroom,
/// every currency product and movement must fit, and the caller must cover
/// what the direction takes from them.
pub open spec fn swap_pool_outcome(
    m: LedgerModel,
    signer: u64,
    option_id: u64,
    base_price: u64,
    amount: u64,
    left_to_right: bool,
) -> Result<(), CustomError> {
    if pool_of(m, option_id, base_price) is None {
        Err(CustomError::InvalidAccount)
    } else {
        let p = pool_of(m, option_id, base_price).unwrap();
        if p.left == 0 {
            Err(CustomError::PoolEmpty)
        } else if base_price + p.right as int / p.left as int > u64::MAX {
            Err(CustomError::ArithmeticOverflow)
        } else {
            let price = pool_price(base_price, p);
            if left_to_right {
                if p.left < amount {
                    Err(CustomError::PoolEmpty)
                } else if p.right + amount > u64::MAX {
                    Err(CustomError::PoolFull)
                } else if price * amount > u64::MAX {
                    Err(CustomError::ArithmeticOverflow)
                } else if native_of(m, signer) < price * amount {
                    Err(CustomError::ArithmeticUnderflow)
                } else if m.authority_native + price * amount > u64::MAX {
                    Err(CustomError::ArithmeticOverflow)
                } else {
                    Ok(())
                }
            } else {
                if p.right < amount {
                    Err(CustomError::PoolEmpty)
                } else if p.left + amount > u64::MAX {
                    Err(CustomError::PoolEmpty)
                } else if price * amount > u64::MAX {
                    Err(CustomError::ArithmeticOverflow)
                } else if option_balance_of(m, signer, option_id) < amount {
                    Err(CustomError::ArithmeticUnderflow)
                } else if m.authority_native < price * amount {
                    Err(CustomError::ArithmeticUnderflow)
                } else if native_of(m, signer) + price * amount > u64::MAX {
                    Err(CustomError::ArithmeticOverflow)
                } else {
                    Ok(())
                }
            }
        }
    }
}

/// The decision `close_pool` reaches: the pool must exist, and the contract
/// it references must be past expiry — or absent, the permissive escape
/// hatch for unreadable contract data.
pub open spec fn close_pool_outcome(m: LedgerModel, option_id: u64, base_price: u64, now: u64) -> Result<
    (),
    CustomError,
> {
    if pool_of(m, option_id, base_price) is None {
        Err(CustomError::InvalidAccount)
    } else {
        match contract_of(m, option_id) {
            Some(c) => if now <= c.end_time {
                Err(CustomError::OptionNotExpired)
            } else {
                Ok(())
            },
            None => Ok(()),
        }
    }
}

/// The decision `list` reaches: the contract must exist (its underlying is
/// copied into the listing) and the caller must hold the tokens to escrow.
pub open spec fn list_outcome(m: LedgerModel, signer: u64, option_id: u64, amount: u64) -> Result<
    (),
    CustomError,
> {
    if contract_of(m, option_id) is None {
        Err(CustomError::InvalidAccount)
    } else if option_balance_of(m, signer, option_id) < amount {
        Err(CustomError::ArithmeticUnderflow)
    } else {
        Ok(())
    }
}

/// The decision `buy` reaches, in the order its checks run: the listing must
/// exist, the payment `price * amount` must fit and be covered by the buyer,
/// the seller's balance must take it, and the listing must still hold the
/// requested amount.
pub open spec fn buy_outcome(
    m: LedgerModel,
    signer: u64,
    option_id: u64,
    owner: u64,
    price: u64,
    amount: u64,
) -> Result<(), CustomError> {
    if listing_of(m, option_id, owner, price) is None {
        Err(CustomError::InvalidAccount)
    } else {
        let l = listing_of(m, option_id, owner, price).unwrap();
        let paid = l.price * amount;
        let owner_mid = if owner == signer {
            native_of(m, signer) - paid
        } else {
            native_of(m, owner) as int
        };
        if paid > u64::MAX {
            Err(CustomError::ArithmeticOverflow)
        } else if native_of(m, signer) < paid {
            Err(CustomError::ArithmeticUnderflow)
        } else if owner_mid + paid > u64::MAX {
            Err(CustomError::ArithmeticOverflow)
        } else if l.amount < amount {
            Err(CustomError::ListingEmpty)
        } else {
            Ok(())
        }
    }
}

/// The decision `close_listing` reaches: the listing must exist, its
/// contract must be past expiry or absent, and only the recorded owner may
/// close.
pub open spec fn close_listing_outcome(
    m: LedgerModel,
    signer: u64,
    option_id: u64,
    owner: u64,
    price: u64,
    now: u64,
) -> Result<(), CustomError> {
    if listing_of(m, option_id, owner, price) is None {
        Err(CustomError::InvalidAccount)
    } else if match contract_of(m, option_id) {
        Some(c) => now <= c.end_time,
        None => false,
    } {
        Err(CustomError::OptionNotExpired)
    } else if signer != owner {
        Err(CustomError::WrongOwner)
    } else {
        Ok(())
    }
}

/// The decision `exercise` reaches, in the order its checks run: the
/// contract must exist and not be past expiry, the unexercised reservation
/// and the caller's burnable tokens are checked before any transfer, then
/// the settlement legs of the contract's direction must fit and be covered.
pub open spec fn exercise_outcome(
    m: LedgerModel,
    signer: u64,
    option_id: u64,
    amount: u64,
    now: u64,
) -> Result<(), CustomError> {
    match contract_of(m, option_id) {
        None => Err(CustomError::InvalidAccount),
        Some(c) => {
            if now > c.end_time {
                Err(CustomError::OptionExpired)
            } else if c.amount_unexercised < amount {
                Err(CustomError::NotEnoughOptionToken)
            } else if option_balance_of(m, signer, option_id) < amount {
                Err(CustomError::ArithmeticUnderflow)
            } else if c.call {
                let cost = c.strike_price * amount;
                let creator_mid = if c.creator == signer {
                    native_of(m, signer) - cost
                } else {
                    native_of(m, c.creator) as int
                };
                if cost > u64::MAX {
                    Err(CustomError::ArithmeticOverflow)
                } else if native_of(m, signer) < cost {
                    Err(CustomError::ArithmeticUnderflow)
                } else if creator_mid + cost > u64::MAX {
                    Err(CustomError::ArithmeticOverflow)
                } else if collateral_of(m, c.underlying_mint) < amount {
                    Err(CustomError::ArithmeticUnderflow)
                } else if asset_balance_of(m, signer, c.underlying_mint) + amount > u64::MAX {
                    Err(CustomError::ArithmeticOverflow)
                } else {
                    Ok(())
                }
            } else {
                let payout = c.strike_price * amount;
                let creator_mid = if c.creator == signer {
                    asset_balance_of(m, signer, c.underlying_mint) - amount
                } else {
                    asset_balance_of(m, c.creator, c.underlying_mint) as int
                };
                if asset_balance_of(m, signer, c.underlying_mint) < amount {
                    Err(CustomError::ArithmeticUnderflow)
                } else if creator_mid + amount > u64::MAX {
                    Err(CustomError::ArithmeticOverflow)
                } else if payout > u64::MAX {
                    Err(CustomError::ArithmeticOverflow)
                } else if m.authority_native < payout {
                    Err(CustomError::ArithmeticUnderflow)
                } else if native_of(m, signer) + payout > u64::MAX {
                    Err(CustomError::ArithmeticOverflow)
                } else {
                    Ok(())
                }
            }
        },
    }
}

/// The decision `claim` reaches: only the original issuer, only at or after
/// expiry, and the remaining collateral leg must fit and be covered.
pub open spec fn claim_outcome(m: LedgerModel, signer: u64, option_id: u64, now: u64) -> Result<
    (),
    CustomError,
> {
    match contract_of(m, option_id) {
        None => Err(CustomError::InvalidAccount),
        Some(c) => {
            if signer != c.creator {
                Err(CustomError::WrongOwner)
            } else if now < c.end_time {
                Err(CustomError::OptionNotExpired)
            } else if c.call {
                if collateral_of(m, c.underlying_mint) < c.amount_unexercised {
                    Err(CustomError::ArithmeticUnderflow)
                } else if asset_balance_of(m, signer, c.underlying_mint) + c.amount_unexercised
                    > u64::MAX {
                    Err(CustomError::ArithmeticOverflow)
                } else {
                    Ok(())
                }
            } else {
                let payout = c.amount_unexercised * c.strike_price;
                if payout > u64::MAX {
                    Err(CustomError::ArithmeticOverflow)
                } else if m.authority_native < payout {
                    Err(CustomError::ArithmeticUnderflow)
                } else if native_of(m, signer) + payout > u64::MAX {
                    Err(CustomError::ArithmeticOverflow)
                } else {
                    Ok(())
                }
            }
        },
    }
}

/// The whole engine state: a keyed store of typed records plus the program
/// authority's native balance.
pub struct Ledger {
    contracts: Table<OptionDataAccount>,
    supplies: Table<Supply>,
    pools: Table<Pool>,
    listings: Table<Listing>,
    opt_bal: Table<u64>,
    asset_bal: Table<u64>,
    coll_vault: Table<u64>,
    holder_vault: Table<u64>,
    native_bal: Table<u64>,
    authority_native: u64,
}

impl View for Ledger {
    type V = LedgerModel;

    closed spec fn view(&self) -> LedgerModel {
        LedgerModel {
            contracts: self.contracts@,
            supplies: self.supplies@,
            pools: self.pools@,
            listings: self.listings@,
            opt_bal: self.opt_bal@,
            asset_bal: self.asset_bal@,
            coll_vault: self.coll_vault@,
            holder_vault: self.holder_vault@,
            native_bal: self.native_bal@,
            authority_native: self.authority_native,
        }
    }
}

impl Ledger {
    /// The ledger invariant; every operation requires and preserves it.
    pub open spec fn wf(&self) -> bool {
        inv(self@)
    }

    /// An empty ledger: no records, no balances.
    pub fn initialize() -> (l: Ledger)
        ensures
            l.wf(),
            l@.contracts == Seq::<(Key, OptionDataAccount)>::empty(),
            l@.supplies == Seq::<(Key, Supply)>::empty(),
            l@.pools == Seq::<(Key, Pool)>::empty(),
            l@.listings == Seq::<(Key, Listing)>::empty(),
            l@.opt_bal == Seq::<(Key, u64)>::empty(),
            l@.asset_bal == Seq::<(Key, u64)>::empty(),
            l@.coll_vault == Seq::<(Key, u64)>::empty(),
            l@.holder_vault == Seq::<(Key, u64)>::empty(),
            l@.native_bal == Seq::<(Key, u64)>::empty(),
            l@.authority_native == 0,
    {
        Ledger {
            contracts: Table::new(),
            supplies: Table::new(),
            pools: Table::new(),
            listings: Table::new(),
            opt_bal: Table::new(),
            asset_bal: Table::new(),
            coll_vault: Table::new(),
            holder_vault: Table::new(),
            native_bal: Table::new(),
            authority_native: 0,
        }
    }

    /// Opens the program-custodied holder vault for one option-token series,
    /// empty; fails if it already exists.
    pub fn create_holder_account(&mut self, option_id: u64) -> (r: Result<(), CustomError>)
        requires
            old(self).wf(),
        ensures
            final(self).wf(),
            r is Ok <==> !holder_m(old(self)@).dom().contains(record_key(option_id)),
            r is Err ==> final(self)@ == old(self)@ && r == Err::<(), CustomError>(
                CustomError::InvalidAccount,
            ),
            r is Ok ==> {
                &&& holder_m(final(self)@) == holder_m(old(self)@).insert(
                    record_key(option_id),
                    0u64,
                )
                &&& final(self)@.contracts == old(self)@.contracts
                &&& final(self)@.supplies == old(self)@.supplies
                &&& final(self)@.pools == old(self)@.pools
                &&& final(self)@.listings == old(self)@.listings
                &&& final(self)@.opt_bal == old(self)@.opt_bal
                &&& final(self)@.asset_bal == old(self)@.asset_bal
                &&& final(self)@.coll_vault == old(self)@.coll_vault
                &&& final(self)@.native_bal == old(self)@.native_bal
                &&& final(self)@.authority_native == old(self)@.authority_native
            },
    {
        let k = Key { a: option_id, b: 0, c: 0 };
        if self.holder_vault.get(k).is_some() {
            return Err(CustomError::InvalidAccount);
        }
        self.holder_vault.put(k, 0);
        proof {
            let m0 = old(self)@;
            let m1 = self@;
            crate::model::lemma_records_untouched(m0, m1);
            assert forall|id: u64| #[trigger] circulating(m1, id) == vault_of(m1, id)
                + wallet_sum(m1, id) by {
                assert(circulating(m0, id) == vault_of(m0, id) + wallet_sum(m0, id));
                assert(vault_of(m1, id) == vault_of(m0, id));
            }
            assert forall|id: u64| #[trigger] vault_of(m1, id) >= pool_left_sum(m1, id)
                + listing_sum(m1, id) by {
                assert(vault_of(m0, id) >= pool_left_sum(m0, id) + listing_sum(m0, id));
                assert(vault_of(m1, id) == vault_of(m0, id));
            }
        }
        Ok(())
    }

    /// Credits native currency to an account: the deposit the surrounding
    /// environment makes before it drives the engine.
    pub fn fund_native(&mut self, acct: u64, amount: u64) -> (r: Result<(), CustomError>)
        requires
            old(self).wf(),
        ensures
            final(self).wf(),
            r is Ok <==> native_of(old(self)@, acct) + amount <= u64::MAX,
            r is Err ==> final(self)@ == old(self)@ && r == Err::<(), CustomError>(
                CustomError::ArithmeticOverflow,
            ),
            r is Ok ==> total_native(final(self)@) == total_native(old(self)@) + amount,
            r is Ok ==> {
                &&& native_m(final(self)@) == native_m(old(self)@).insert(
                    record_key(acct),
                    (native_of(old(self)@, acct) + amount) as u64,
                )
                &&& final(self)@.contracts == old(self)@.contracts
                &&& final(self)@.supplies == old(self)@.supplies
                &&& final(self)@.pools == old(self)@.pools
                &&& final(self)@.listings == old(self)@.listings
                &&& final(self)@.opt_bal == old(self)@.opt_bal
                &&& final(self)@.asset_bal == old(self)@.asset_bal
                &&& final(self)@.coll_vault == old(self)@.coll_vault
                &&& final(self)@.holder_vault == old(self)@.holder_vault
                &&& final(self)@.authority_native == old(self)@.authority_native
            },
    {
        let k = Key { a: acct, b: 0, c: 0 };
        let cur = read_bal(&self.native_bal, k);
        if amount > u64::MAX - cur {
            return Err(CustomError::ArithmeticOverflow);
        }
        credit(&mut self.native_bal, k, amount);
        proof {
            self.lemma_token_side_untouched(*old(self));
            let f = coin_contrib();
            assert(f((record_key(acct), 0u64)) == 0);
            assert(sum_by(self@.native_bal, f) == sum_by(old(self)@.native_bal, f) + f(
                (record_key(acct), (native_of(old(self)@, acct) + amount) as u64),
            ) - f((record_key(acct), native_of(old(self)@, acct))));
        }
        Ok(())
    }

    /// Credits underlying-asset units to an account's wallet: the deposit the
    /// surrounding environment makes before it drives the engine.
    pub fn fund_asset(&mut self, acct: u64, asset: u64, amount: u64) -> (r: Result<
        (),
        CustomError,
    >)
        requires
            old(self).wf(),
        ensures
            final(self).wf(),
            r is Ok <==> asset_balance_of(old(self)@, acct, asset) + amount <= u64::MAX,
            r is Err ==> final(self)@ == old(self)@ && r == Err::<(), CustomError>(
                CustomError::ArithmeticOverflow,
            ),
            r is Ok ==> forall|a: u64| #[trigger] total_asset(final(self)@, a) == total_asset(
                old(self)@,
                a,
            ) + (if a == asset {
                amount as int
            } else {
                0
            }),
            r is Ok ==> {
                &&& asset_bal_m(final(self)@) == asset_bal_m(old(self)@).insert(
                    pair_key(acct, asset),
                    (asset_balance_of(old(self)@, acct, asset) + amount) as u64,
                )
                &&& final(self)@.contracts == old(self)@.contracts
                &&& final(self)@.supplies == old(self)@.supplies
                &&& final(self)@.pools == old(self)@.pools
                &&& final(self)@.listings == old(self)@.listings
                &&& final(self)@.opt_bal == old(self)@.opt_bal
                &&& final(self)@.coll_vault == old(self)@.coll_vault
                &&& final(self)@.holder_vault == old(self)@.holder_vault
                &&& final(self)@.native_bal == old(self)@.native_bal
                &&& final(self)@.authority_native == old(self)@.authority_native
            },
    {
        let k = Key { a: acct, b: asset, c: 0 };
        let cur = read_bal(&self.asset_bal, k);
        if amount > u64::MAX - cur {
            return Err(CustomError::ArithmeticOverflow);
        }
        credit(&mut self.asset_bal, k, amount);
        proof {
            self.lemma_token_side_untouched(*old(self));
            assert forall|a: u64| #[trigger] total_asset(self@, a) == total_asset(old(self)@, a)
                + (if a == asset {
                amount as int
            } else {
                0
            }) by {
                let f = wallet_contrib(a);
                assert(f((pair_key(acct, asset), 0u64)) == 0);
                assert(sum_by(self@.asset_bal, f) == sum_by(old(self)@.asset_bal, f) + f(
                    (
                        pair_key(acct, asset),
                        (asset_balance_of(old(self)@, acct, asset) + amount) as u64,
                    ),
                ) - f((pair_key(acct, asset), asset_balance_of(old(self)@, acct, asset))));
            }
        }
        Ok(())
    }

    /// Issues an option: escrows the collateral, mints `amount` option
    /// tokens to the caller, and writes the contract terms. An id that
    /// already carries a contract — or whose supply record survives a past
    /// reclaim — is rejected rather than overwritten, so outstanding supply
    /// is never silently re-termed.
    pub fn create(
        &mut self,
        signer: u64,
        option_id: u64,
        underlying: u64,
        end_time: u64,
        strike_price: u64,
        amount: u64,
        call: bool,
        resellable: bool,
    ) -> (r: Result<(), CustomError>)
        requires
            old(self).wf(),
        ensures
            final(self).wf(),
            r == create_outcome(
                old(self)@,
                signer,
                option_id,
                underlying,
                strike_price,
                amount,
                call,
            ),
            r is Err ==> final(self)@ == old(self)@,
            r is Ok ==> total_native(final(self)@) == total_native(old(self)@),
            r is Ok ==> forall|a: u64| #[trigger]
                total_asset(final(self)@, a) == total_asset(old(self)@, a),
            r is Ok ==> ({
                let m0 = old(self)@;
                let m1 = final(self)@;
                &&& contracts_m(m1) == contracts_m(m0).insert(
                    record_key(option_id),
                    (OptionDataAccount {
                        creator: signer,
                        underlying_mint: underlying,
                        end_time: end_time,
                        strike_price: strike_price,
                        amount_unexercised: amount,
                        call: call,
                        resellable: resellable,
                    }),
                )
                &&& supplies_m(m1) == supplies_m(m0).insert(
                    record_key(option_id),
                    (Supply { minted: amount, burned: 0 }),
                )
                &&& opt_bal_m(m1) == opt_bal_m(m0).insert(pair_key(signer, option_id), amount)
                &&& m1.pools == m0.pools
                &&& m1.listings == m0.listings
                &&& m1.holder_vault == m0.holder_vault
                &&& if call {
                    &&& asset_bal_m(m1) == asset_bal_m(m0).insert(
                        pair_key(signer, underlying),
                        (asset_balance_of(m0, signer, underlying) - amount) as u64,
                    )
                    &&& coll_m(m1) == coll_m(m0).insert(
                        record_key(underlying),
                        (collateral_of(m0, underlying) + amount) as u64,
                    )
                    &&& m1.native_bal == m0.native_bal
                    &&& m1.authority_native == m0.authority_native
                } else {
                    &&& native_m(m1) == native_m(m0).insert(
                        record_key(signer),
                        (native_of(m0, signer) - strike_price * amount) as u64,
                    )
                    &&& m1.authority_native == m0.authority_native + strike_price * amount
                    &&& m1.asset_bal == m0.asset_bal
                    &&& m1.coll_vault == m0.coll_vault
                }
            }),
    {
        let k_opt = Key { a: option_id, b: 0, c: 0 };
        if self.contracts.get(k_opt).is_some() || self.supplies.get(k_opt).is_some() {
            return Err(CustomError::OptionAlreadyExists);
        }
        if call {
            let k_asset = Key { a: signer, b: underlying, c: 0 };
            let k_coll = Key { a: underlying, b: 0, c: 0 };
            let have = read_bal(&self.asset_bal, k_asset);
            if have < amount {
                return Err(CustomError::ArithmeticUnderflow);
            }
            let coll = read_bal(&self.coll_vault, k_coll);
            if amount > u64::MAX - coll {
                return Err(CustomError::ArithmeticOverflow);
            }
            debit(&mut self.asset_bal, k_asset, amount);
            credit(&mut self.coll_vault, k_coll, amount);
        } else {
            let cost = match strike_price.checked_mul(amount) {
                None => {
                    return Err(CustomError::ArithmeticOverflow);
                },
                Some(c) => c,
            };
            let k_native = Key { a: signer, b: 0, c: 0 };
            let have = read_bal(&self.native_bal, k_native);
            if have < cost {
                return Err(CustomError::ArithmeticUnderflow);
            }
            if cost > u64::MAX - self.authority_native {
                return Err(CustomError::ArithmeticOverflow);
            }
            debit(&mut self.native_bal, k_native, cost);
            self.authority_native = self.authority_native + cost;
        }
        let k_bal = Key { a: signer, b: option_id, c: 0 };
        proof {
            let m0 = old(self)@;
            assert(circulating(m0, option_id) == vault_of(m0, option_id) + wallet_sum(
                m0,
                option_id,
            ));
            crate::model::lemma_escrow_sums_nonneg(m0, option_id);
            crate::model::lemma_wallet_le_sum(m0, signer, option_id);
            assert(circulating(m0, option_id) == 0);
            assert(vault_of(m0, option_id) == 0);
            assert(wallet_sum(m0, option_id) == 0);
            assert(option_balance_of(m0, signer, option_id) == 0);
            assert(self@.opt_bal == m0.opt_bal);
        }
        credit(&mut self.opt_bal, k_bal, amount);
        self.supplies.put(k_opt, Supply { minted: amount, burned: 0 });
        self.contracts.put(
            k_opt,
            OptionDataAccount {
                creator: signer,
                underlying_mint: underlying,
                end_time: end_time,
                strike_price: strike_price,
                amount_unexercised: amount,
                call: call,
                resellable: resellable,
            },
        );
        proof {
            let m0 = old(self)@;
            let m1 = self@;
            assert(opt_bal_m(m1) == opt_bal_m(m0).insert(pair_key(signer, option_id), amount));
            crate::model::lemma_pools_clause(m0, m1);
            crate::model::lemma_listings_clause(m0, m1);
            assert forall|k: Key| #[trigger] supplies_m(m1).dom().contains(k) implies supplies_m(
                m1,
            )[k].burned <= supplies_m(m1)[k].minted by {
                if k != record_key(option_id) {
                    assert(supplies_m(m0).dom().contains(k));
                }
            }
            assert forall|k: Key| #[trigger] contracts_m(m1).dom().contains(k) implies {
                &&& supplies_m(m1).dom().contains(k)
                &&& contracts_m(m1)[k].amount_unexercised <= supplies_m(m1)[k].minted
            } by {
                if k != record_key(option_id) {
                    assert(contracts_m(m0).dom().contains(k));
                }
            }
            assert forall|id: u64| #[trigger] circulating(m1, id) == vault_of(m1, id)
                + wallet_sum(m1, id) by {
                assert(circulating(m0, id) == vault_of(m0, id) + wallet_sum(m0, id));
                assert(vault_of(m1, id) == vault_of(m0, id));
                let f = wallet_contrib(id);
                assert(f((pair_key(signer, option_id), 0u64)) == 0);
                assert(sum_by(m1.opt_bal, f) == sum_by(m0.opt_bal, f) + f(
                    (pair_key(signer, option_id), amount),
                ) - f((pair_key(signer, option_id), 0u64)));
            }
            assert forall|id: u64| #[trigger] vault_of(m1, id) >= pool_left_sum(m1, id)
                + listing_sum(m1, id) by {
                assert(vault_of(m0, id) >= pool_left_sum(m0, id) + listing_sum(m0, id));
            }
            if call {
                assert forall|a: u64| #[trigger] total_asset(m1, a) == total_asset(m0, a) by {
                    let f = wallet_contrib(a);
                    assert(f((pair_key(signer, underlying), 0u64)) == 0);
                    assert(sum_by(m1.asset_bal, f) == sum_by(m0.asset_bal, f) + f(
                        (
                            pair_key(signer, underlying),
                            (asset_balance_of(m0, signer, underlying) - amount) as u64,
                        ),
                    ) - f((pair_key(signer, underlying), asset_balance_of(m0, signer, underlying))));
                }
            } else {
                let f = coin_contrib();
                assert(f((record_key(signer), 0u64)) == 0);
                assert(sum_by(m1.native_bal, f) == sum_by(m0.native_bal, f) + f(
                    (record_key(signer), (native_of(m0, signer) - strike_price * amount) as u64),
                ) - f((record_key(signer), native_of(m0, signer))));
                assert forall|a: u64| #[trigger] total_asset(m1, a) == total_asset(m0, a) by {}
            }
        }
        Ok(())
    }

    /// Opens a bonding pool for one option-token series at a base price:
    /// locks `amount` option tokens of the caller into the holder vault and
    /// records the reserves as `left = amount`, `right = 0`.
    pub fn create_pool(&mut self, signer: u64, option_id: u64, base_price: u64, amount: u64) -> (r:
        Result<(), CustomError>)
        requires
            old(self).wf(),
        ensures
            final(self).wf(),
            r == create_pool_outcome(old(self)@, signer, option_id, base_price, amount),
            r is Err ==> final(self)@ == old(self)@,
            r is Ok ==> ({
                let m0 = old(self)@;
                let m1 = final(self)@;
                &&& pools_m(m1) == pools_m(m0).insert(
                    pair_key(option_id, base_price),
                    (Pool {
                        option_mint: option_id,
                        base_price: base_price,
                        left: amount,
                        right: 0,
                    }),
                )
                &&& opt_bal_m(m1) == opt_bal_m(m0).insert(
                    pair_key(signer, option_id),
                    (option_balance_of(m0, signer, option_id) - amount) as u64,
                )
                &&& holder_m(m1) == holder_m(m0).insert(
                    record_key(option_id),
                    (vault_of(m0, option_id) + amount) as u64,
                )
                &&& m1.contracts == m0.contracts
                &&& m1.supplies == m0.supplies
                &&& m1.listings == m0.listings
                &&& m1.asset_bal == m0.asset_bal
                &&& m1.coll_vault == m0.coll_vault
                &&& m1.native_bal == m0.native_bal
                &&& m1.authority_native == m0.authority_native
            }),
    {
        let k_pool = Key { a: option_id, b: base_price, c: 0 };
        if self.pools.get(k_pool).is_some() {
            return Err(CustomError::InvalidAccount);
        }
        let k_bal = Key { a: signer, b: option_id, c: 0 };
        let have = read_bal(&self.opt_bal, k_bal);
        if have < amount {
            return Err(CustomError::ArithmeticUnderflow);
        }
        proof {
            let m0 = old(self)@;
            assert(circulating(m0, option_id) == vault_of(m0, option_id) + wallet_sum(
                m0,
                option_id,
            ));
            crate::model::lemma_wallet_le_sum(m0, signer, option_id);
        }
        debit(&mut self.opt_bal, k_bal, amount);
        credit(&mut self.holder_vault, Key { a: option_id, b: 0, c: 0 }, amount);
        self.pools.put(
            k_pool,
            Pool { option_mint: option_id, base_price: base_price, left: amount, right: 0 },
        );
        proof {
            let m0 = old(self)@;
            let m1 = self@;
            crate::model::lemma_supplies_clause(m0, m1);
            crate::model::lemma_contracts_clause(m0, m1);
            crate::model::lemma_listings_clause(m0, m1);
            assert forall|k: Key| #[trigger] pools_m(m1).dom().contains(k) implies {
                &&& pools_m(m1)[k].option_mint == k.a
                &&& pools_m(m1)[k].base_price == k.b
            } by {
                if k != pair_key(option_id, base_price) {
                    assert(pools_m(m0).dom().contains(k));
                }
            }
            assert forall|id: u64| #[trigger] circulating(m1, id) == vault_of(m1, id)
                + wallet_sum(m1, id) by {
                assert(circulating(m0, id) == vault_of(m0, id) + wallet_sum(m0, id));
                let f = wallet_contrib(id);
                assert(f((pair_key(signer, option_id), 0u64)) == 0);
                assert(sum_by(m1.opt_bal, f) == sum_by(m0.opt_bal, f) + f(
                    (
                        pair_key(signer, option_id),
                        (option_balance_of(m0, signer, option_id) - amount) as u64,
                    ),
                ) - f((pair_key(signer, option_id), option_balance_of(m0, signer, option_id))));
            }
            assert forall|id: u64| #[trigger] vault_of(m1, id) >= pool_left_sum(m1, id)
                + listing_sum(m1, id) by {
                assert(vault_of(m0, id) >= pool_left_sum(m0, id) + listing_sum(m0, id));
                let f = pool_contrib(id);
                assert(sum_by(m1.pools, f) == sum_by(m0.pools, f) + f(
                    (
                        pair_key(option_id, base_price),
                        (Pool {
                            option_mint: option_id,
                            base_price: base_price,
                            left: amount,
                            right: 0,
                        }),
                    ),
                ));
            }
        }
        Ok(())
    }

    /// Swaps against a pool at the price read from the pre-trade reserves.
    /// Buying (`left_to_right`) moves `amount` from `left` to `right`, hands
    /// the caller `amount` option tokens out of the holder vault, and charges
    /// `amount * price` native currency into the program authority. Selling
    /// moves `amount` from `right` to `left`, takes the caller's option
    /// tokens into the vault, and pays `amount * price` out of the authority.
    pub fn swap_pool(
        &mut self,
        signer: u64,
        option_id: u64,
        base_price: u64,
        amount: u64,
        left_to_right: bool,
    ) -> (r: Result<(), CustomError>)
        requires
            old(self).wf(),
        ensures
            final(self).wf(),
            r == swap_pool_outcome(old(self)@, signer, option_id, base_price, amount, left_to_right),
            r is Err ==> final(self)@ == old(self)@,
            r is Ok ==> total_native(final(self)@) == total_native(old(self)@),
            r is Ok ==> ({
                let m0 = old(self)@;
                let m1 = final(self)@;
                let p = pool_of(m0, option_id, base_price).unwrap();
                let cost = pool_price(base_price, p) * amount;
                &&& m1.contracts == m0.contracts
                &&& m1.supplies == m0.supplies
                &&& m1.listings == m0.listings
                &&& m1.asset_bal == m0.asset_bal
                &&& m1.coll_vault == m0.coll_vault
                &&& if left_to_right {
                    &&& pools_m(m1) == pools_m(m0).insert(
                        pair_key(option_id, base_price),
                        (Pool {
                            option_mint: option_id,
                            base_price: base_price,
                            left: (p.left - amount) as u64,
                            right: (p.right + amount) as u64,
                        }),
                    )
                    &&& holder_m(m1) == holder_m(m0).insert(
                        record_key(option_id),
                        (vault_of(m0, option_id) - amount) as u64,
                    )
                    &&& opt_bal_m(m1) == opt_bal_m(m0).insert(
                        pair_key(signer, option_id),
                        (option_balance_of(m0, signer, option_id) + amount) as u64,
                    )
                    &&& native_m(m1) == native_m(m0).insert(
                        record_key(signer),
                        (native_of(m0, signer) - cost) as u64,
                    )
                    &&& m1.authority_native == m0.authority_native + cost
                } else {
                    &&& pools_m(m1) == pools_m(m0).insert(
                        pair_key(option_id, base_price),
                        (Pool {
                            option_mint: option_id,
                            base_price: base_price,
                            left: (p.left + amount) as u64,
                            right: (p.right - amount) as u64,
                        }),
                    )
                    &&& holder_m(m1) == holder_m(m0).insert(
                        record_key(option_id),
                        (vault_of(m0, option_id) + amount) as u64,
                    )
                    &&& opt_bal_m(m1) == opt_bal_m(m0).insert(
                        pair_key(signer, option_id),
                        (option_balance_of(m0, signer, option_id) - amount) as u64,
                    )
                    &&& native_m(m1) == native_m(m0).insert(
                        record_key(signer),
                        (native_of(m0, signer) + cost) as u64,
                    )
                    &&& m1.authority_native == m0.authority_native - cost
                }
            }),
    {
        let k_pool = Key { a: option_id, b: base_price, c: 0 };
        let pool = match self.pools.get(k_pool) {
            None => {
                return Err(CustomError::InvalidAccount);
            },
            Some(p) => p,
        };
        if pool.left == 0 {
            return Err(CustomError::PoolEmpty);
        }
        let quotient = pool.right / pool.left;
        let price = match base_price.checked_add(quotient) {
            None => {
                return Err(CustomError::ArithmeticOverflow);
            },
            Some(p) => p,
        };
        let k_bal = Key { a: signer, b: option_id, c: 0 };
        let k_native = Key { a: signer, b: 0, c: 0 };
        let k_vault = Key { a: option_id, b: 0, c: 0 };
        if left_to_right {
            if pool.left < amount {
                return Err(CustomError::PoolEmpty);
            }
            if amount > u64::MAX - pool.right {
                return Err(CustomError::PoolFull);
            }
            let cost = match price.checked_mul(amount) {
                None => {
                    return Err(CustomError::ArithmeticOverflow);
                },
                Some(c) => c,
            };
            let have = read_bal(&self.native_bal, k_native);
            if have < cost {
                return Err(CustomError::ArithmeticUnderflow);
            }
            if cost > u64::MAX - self.authority_native {
                return Err(CustomError::ArithmeticOverflow);
            }
            proof {
                let m0 = old(self)@;
                assert(circulating(m0, option_id) == vault_of(m0, option_id) + wallet_sum(
                    m0,
                    option_id,
                ));
                assert(vault_of(m0, option_id) >= pool_left_sum(m0, option_id) + listing_sum(
                    m0,
                    option_id,
                ));
                crate::model::lemma_pool_le_sum(m0, option_id, base_price);
                crate::model::lemma_escrow_sums_nonneg(m0, option_id);
                crate::model::lemma_wallet_le_sum(m0, signer, option_id);
            }
            self.pools.put(
                k_pool,
                Pool {
                    option_mint: option_id,
                    base_price: base_price,
                    left: pool.left - amount,
                    right: pool.right + amount,
                },
            );
            debit(&mut self.holder_vault, k_vault, amount);
            credit(&mut self.opt_bal, k_bal, amount);
            debit(&mut self.native_bal, k_native, cost);
            self.authority_native = self.authority_native + cost;
            proof {
                self.lemma_swap_inv(*old(self), signer, option_id, base_price, amount, pool, true);
                let f = coin_contrib();
                assert(f((record_key(signer), 0u64)) == 0);
                assert(sum_by(self@.native_bal, f) == sum_by(old(self)@.native_bal, f) - cost);
            }
            Ok(())
        } else {
            if pool.right < amount {
                return Err(CustomError::PoolEmpty);
            }
            if amount > u64::MAX - pool.left {
                return Err(CustomError::PoolEmpty);
            }
            let cost = match price.checked_mul(amount) {
                None => {
                    return Err(CustomError::ArithmeticOverflow);
                },
                Some(c) => c,
            };
            let have = read_bal(&self.opt_bal, k_bal);
            if have < amount {
                return Err(CustomError::ArithmeticUnderflow);
            }
            if self.authority_native < cost {
                return Err(CustomError::ArithmeticUnderflow);
            }
            let native_have = read_bal(&self.native_bal, k_native);
            if cost > u64::MAX - native_have {
                return Err(CustomError::ArithmeticOverflow);
            }
            proof {
                let m0 = old(self)@;
                assert(circulating(m0, option_id) == vault_of(m0, option_id) + wallet_sum(
                    m0,
                    option_id,
                ));
                crate::model::lemma_wallet_le_sum(m0, signer, option_id);
            }
            self.pools.put(
                k_pool,
                Pool {
                    option_mint: option_id,
                    base_price: base_price,
                    left: pool.left + amount,
                    right: pool.right - amount,
                },
            );
            credit(&mut self.holder_vault, k_vault, amount);
            debit(&mut self.opt_bal, k_bal, amount);
            self.authority_native = self.authority_native - cost;
            credit(&mut self.native_bal, k_native, cost);
            proof {
                self.lemma_swap_inv(*old(self), signer, option_id, base_price, amount, pool, false);
                let f = coin_contrib();
                assert(f((record_key(signer), 0u64)) == 0);
                assert(sum_by(self@.native_bal, f) == sum_by(old(self)@.native_bal, f) + cost);
            }
            Ok(())
        }
    }

    /// Destroys a pool once its contract is expired — or unreadable, which
    /// the engine treats permissively, as the close path always has. No
    /// authorization is required, and the reserves are not swept: whatever
    /// `left` still sits in the holder vault is stranded with no claimant.
    pub fn close_pool(&mut self, option_id: u64, base_price: u64, now: u64) -> (r: Result<
        (),
        CustomError,
    >)
        requires
            old(self).wf(),
        ensures
            final(self).wf(),
            r == close_pool_outcome(old(self)@, option_id, base_price, now),
            r is Err ==> final(self)@ == old(self)@,
            r is Ok ==> ({
                let m0 = old(self)@;
                let m1 = final(self)@;
                &&& pools_m(m1) == pools_m(m0).remove(pair_key(option_id, base_price))
                &&& m1.contracts == m0.contracts
                &&& m1.supplies == m0.supplies
                &&& m1.listings == m0.listings
                &&& m1.opt_bal == m0.opt_bal
                &&& m1.asset_bal == m0.asset_bal
                &&& m1.coll_vault == m0.coll_vault
                &&& m1.holder_vault == m0.holder_vault
                &&& m1.native_bal == m0.native_bal
                &&& m1.authority_native == m0.authority_native
            }),
    {
        let k_pool = Key { a: option_id, b: base_price, c: 0 };
        if self.pools.get(k_pool).is_none() {
            return Err(CustomError::InvalidAccount);
        }
        match self.contracts.get(Key { a: option_id, b: 0, c: 0 }) {
            Some(c) => {
                if now <= c.end_time {
                    return Err(CustomError::OptionNotExpired);
                }
            },
            None => {},
        }
        self.pools.remove(k_pool);
        proof {
            let m0 = old(self)@;
            let m1 = self@;
            crate::model::lemma_supplies_clause(m0, m1);
            crate::model::lemma_contracts_clause(m0, m1);
            crate::model::lemma_listings_clause(m0, m1);
            assert forall|k: Key| #[trigger] pools_m(m1).dom().contains(k) implies {
                &&& pools_m(m1)[k].option_mint == k.a
                &&& pools_m(m1)[k].base_price == k.b
            } by {
                assert(pools_m(m0).dom().contains(k));
            }
            assert forall|id: u64| #[trigger] circulating(m1, id) == vault_of(m1, id)
                + wallet_sum(m1, id) by {
                assert(circulating(m0, id) == vault_of(m0, id) + wallet_sum(m0, id));
            }
            assert forall|id: u64| #[trigger] vault_of(m1, id) >= pool_left_sum(m1, id)
                + listing_sum(m1, id) by {
                assert(vault_of(m0, id) >= pool_left_sum(m0, id) + listing_sum(m0, id));
                let f = pool_contrib(id);
                assert(sum_by(m1.pools, f) == sum_by(m0.pools, f) - f(
                    (
                        pair_key(option_id, base_price),
                        pools_m(m0)[pair_key(option_id, base_price)],
                    ),
                ));
                assert(f(
                    (
                        pair_key(option_id, base_price),
                        pools_m(m0)[pair_key(option_id, base_price)],
                    ),
                ) >= 0);
            }
        }
        Ok(())
    }

    /// Escrows `amount` of the caller's option tokens and adds them to the
    /// listing keyed by (series, caller, price); repeated listing at the
    /// same price accumulates, and the record's metadata is rewritten.
    pub fn list(&mut self, signer: u64, option_id: u64, amount: u64, price: u64) -> (r: Result<
        (),
        CustomError,
    >)
        requires
            old(self).wf(),
        ensures
            final(self).wf(),
            r == list_outcome(old(self)@, signer, option_id, amount),
            r is Err ==> final(self)@ == old(self)@,
            r is Ok ==> ({
                let m0 = old(self)@;
                let m1 = final(self)@;
                &&& listings_m(m1) == listings_m(m0).insert(
                    triple_key(option_id, signer, price),
                    (Listing {
                        underlying_mint: contract_of(m0, option_id).unwrap().underlying_mint,
                        option_mint: option_id,
                        owner: signer,
                        amount: (crate::model::listing_amount_of(m0, option_id, signer, price)
                            + amount) as u64,
                        price: price,
                    }),
                )
                &&& opt_bal_m(m1) == opt_bal_m(m0).insert(
                    pair_key(signer, option_id),
                    (option_balance_of(m0, signer, option_id) - amount) as u64,
                )
                &&& holder_m(m1) == holder_m(m0).insert(
                    record_key(option_id),
                    (vault_of(m0, option_id) + amount) as u64,
                )
                &&& m1.contracts == m0.contracts
                &&& m1.supplies == m0.supplies
                &&& m1.pools == m0.pools
                &&& m1.asset_bal == m0.asset_bal
                &&& m1.coll_vault == m0.coll_vault
                &&& m1.native_bal == m0.native_bal
                &&& m1.authority_native == m0.authority_native
            }),
    {
        let k_opt = Key { a: option_id, b: 0, c: 0 };
        let c = match self.contracts.get(k_opt) {
            None => {
                return Err(CustomError::InvalidAccount);
            },
            Some(c) => c,
        };
        let k_bal = Key { a: signer, b: option_id, c: 0 };
        let have = read_bal(&self.opt_bal, k_bal);
        if have < amount {
            return Err(CustomError::ArithmeticUnderflow);
        }
        let k_listing = Key { a: option_id, b: signer, c: price };
        let prev_amt = match self.listings.get(k_listing) {
            Some(l) => l.amount,
            None => 0,
        };
        proof {
            let m0 = old(self)@;
            assert(circulating(m0, option_id) == vault_of(m0, option_id) + wallet_sum(
                m0,
                option_id,
            ));
            assert(vault_of(m0, option_id) >= pool_left_sum(m0, option_id) + listing_sum(
                m0,
                option_id,
            ));
            crate::model::lemma_escrow_sums_nonneg(m0, option_id);
            crate::model::lemma_wallet_le_sum(m0, signer, option_id);
            if listings_m(m0).dom().contains(triple_key(option_id, signer, price)) {
                crate::model::lemma_listing_le_sum(m0, option_id, signer, price);
            }
        }
        let new_amt = prev_amt + amount;
        debit(&mut self.opt_bal, k_bal, amount);
        credit(&mut self.holder_vault, Key { a: option_id, b: 0, c: 0 }, amount);
        self.listings.put(
            k_listing,
            Listing {
                underlying_mint: c.underlying_mint,
                option_mint: option_id,
                owner: signer,
                amount: new_amt,
                price: price,
            },
        );
        proof {
            let m0 = old(self)@;
            let m1 = self@;
            crate::model::lemma_supplies_clause(m0, m1);
            crate::model::lemma_contracts_clause(m0, m1);
            crate::model::lemma_pools_clause(m0, m1);
            assert forall|k: Key| #[trigger] listings_m(m1).dom().contains(k) implies {
                &&& listings_m(m1)[k].option_mint == k.a
                &&& listings_m(m1)[k].owner == k.b
                &&& listings_m(m1)[k].price == k.c
            } by {
                if k != triple_key(option_id, signer, price) {
                    assert(listings_m(m0).dom().contains(k));
                }
            }
            assert forall|id: u64| #[trigger] circulating(m1, id) == vault_of(m1, id)
                + wallet_sum(m1, id) by {
                assert(circulating(m0, id) == vault_of(m0, id) + wallet_sum(m0, id));
                let f = wallet_contrib(id);
                assert(f((pair_key(signer, option_id), 0u64)) == 0);
                assert(sum_by(m1.opt_bal, f) == sum_by(m0.opt_bal, f) + f(
                    (
                        pair_key(signer, option_id),
                        (option_balance_of(m0, signer, option_id) - amount) as u64,
                    ),
                ) - f((pair_key(signer, option_id), option_balance_of(m0, signer, option_id))));
            }
            assert forall|id: u64| #[trigger] vault_of(m1, id) >= pool_left_sum(m1, id)
                + listing_sum(m1, id) by {
                assert(vault_of(m0, id) >= pool_left_sum(m0, id) + listing_sum(m0, id));
                let f = listing_contrib(id);
                let k = triple_key(option_id, signer, price);
                let newl = Listing {
                    underlying_mint: contract_of(m0, option_id).unwrap().underlying_mint,
                    option_mint: option_id,
                    owner: signer,
                    amount: (crate::model::listing_amount_of(m0, option_id, signer, price)
                        + amount) as u64,
                    price: price,
                };
                if listings_m(m0).dom().contains(k) {
                    assert(sum_by(m1.listings, f) == sum_by(m0.listings, f) - f(
                        (k, listings_m(m0)[k]),
                    ) + f((k, newl)));
                } else {
                    assert(sum_by(m1.listings, f) == sum_by(m0.listings, f) + f((k, newl)));
                }
            }
        }
        Ok(())
    }

    /// Fills `amount` from a listing: the buyer pays `price * amount` native
    /// currency straight to the recorded owner, and receives the tokens from
    /// the holder vault. A listing drained to zero stays on the books until
    /// its owner closes it.
    pub fn buy(&mut self, signer: u64, option_id: u64, owner: u64, price: u64, amount: u64) -> (r:
        Result<(), CustomError>)
        requires
            old(self).wf(),
        ensures
            final(self).wf(),
            r == buy_outcome(old(self)@, signer, option_id, owner, price, amount),
            r is Err ==> final(self)@ == old(self)@,
            r is Ok ==> total_native(final(self)@) == total_native(old(self)@),
            r is Ok ==> ({
                let m0 = old(self)@;
                let m1 = final(self)@;
                let l = listing_of(m0, option_id, owner, price).unwrap();
                let paid = l.price * amount;
                let owner_mid = if owner == signer {
                    native_of(m0, signer) - paid
                } else {
                    native_of(m0, owner) as int
                };
                &&& listings_m(m1) == listings_m(m0).insert(
                    triple_key(option_id, owner, price),
                    (Listing {
                        underlying_mint: l.underlying_mint,
                        option_mint: l.option_mint,
                        owner: l.owner,
                        amount: (l.amount - amount) as u64,
                        price: l.price,
                    }),
                )
                &&& native_m(m1) == native_m(m0).insert(
                    record_key(signer),
                    (native_of(m0, signer) - paid) as u64,
                ).insert(record_key(owner), (owner_mid + paid) as u64)
                &&& holder_m(m1) == holder_m(m0).insert(
                    record_key(option_id),
                    (vault_of(m0, option_id) - amount) as u64,
                )
                &&& opt_bal_m(m1) == opt_bal_m(m0).insert(
                    pair_key(signer, option_id),
                    (option_balance_of(m0, signer, option_id) + amount) as u64,
                )
                &&& m1.contracts == m0.contracts
                &&& m1.supplies == m0.supplies
                &&& m1.pools == m0.pools
                &&& m1.asset_bal == m0.asset_bal
                &&& m1.coll_vault == m0.coll_vault
                &&& m1.authority_native == m0.authority_native
            }),
    {
        let k_listing = Key { a: option_id, b: owner, c: price };
        let listing = match self.listings.get(k_listing) {
            None => {
                return Err(CustomError::InvalidAccount);
            },
            Some(l) => l,
        };
        let paid = match listing.price.checked_mul(amount) {
            None => {
                return Err(CustomError::ArithmeticOverflow);
            },
            Some(p) => p,
        };
        let k_sig = Key { a: signer, b: 0, c: 0 };
        let k_own = Key { a: owner, b: 0, c: 0 };
        let nb_s = read_bal(&self.native_bal, k_sig);
        if nb_s < paid {
            return Err(CustomError::ArithmeticUnderflow);
        }
        let owner_mid = if owner == signer {
            nb_s - paid
        } else {
            read_bal(&self.native_bal, k_own)
        };
        if paid > u64::MAX - owner_mid {
            return Err(CustomError::ArithmeticOverflow);
        }
        if listing.amount < amount {
            return Err(CustomError::ListingEmpty);
        }
        proof {
            let m0 = old(self)@;
            assert(circulating(m0, option_id) == vault_of(m0, option_id) + wallet_sum(
                m0,
                option_id,
            ));
            assert(vault_of(m0, option_id) >= pool_left_sum(m0, option_id) + listing_sum(
                m0,
                option_id,
            ));
            crate::model::lemma_listing_le_sum(m0, option_id, owner, price);
            crate::model::lemma_escrow_sums_nonneg(m0, option_id);
            crate::model::lemma_wallet_le_sum(m0, signer, option_id);
        }
        debit(&mut self.native_bal, k_sig, paid);
        let ghost mid_native = self.native_bal@;
        credit(&mut self.native_bal, k_own, paid);
        self.listings.put(
            k_listing,
            Listing {
                underlying_mint: listing.underlying_mint,
                option_mint: listing.option_mint,
                owner: listing.owner,
                amount: listing.amount - amount,
                price: listing.price,
            },
        );
        debit(&mut self.holder_vault, Key { a: option_id, b: 0, c: 0 }, amount);
        credit(&mut self.opt_bal, Key { a: signer, b: option_id, c: 0 }, amount);
        proof {
            let m0 = old(self)@;
            let m1 = self@;
            crate::model::lemma_supplies_clause(m0, m1);
            crate::model::lemma_contracts_clause(m0, m1);
            crate::model::lemma_pools_clause(m0, m1);
            assert(listings_m(m0).dom().contains(triple_key(option_id, owner, price)));
            assert forall|k: Key| #[trigger] listings_m(m1).dom().contains(k) implies {
                &&& listings_m(m1)[k].option_mint == k.a
                &&& listings_m(m1)[k].owner == k.b
                &&& listings_m(m1)[k].price == k.c
            } by {
                if k != triple_key(option_id, owner, price) {
                    assert(listings_m(m0).dom().contains(k));
                }
            }
            assert forall|id: u64| #[trigger] circulating(m1, id) == vault_of(m1, id)
                + wallet_sum(m1, id) by {
                assert(circulating(m0, id) == vault_of(m0, id) + wallet_sum(m0, id));
                let f = wallet_contrib(id);
                assert(f((pair_key(signer, option_id), 0u64)) == 0);
                assert(sum_by(m1.opt_bal, f) == sum_by(m0.opt_bal, f) + f(
                    (
                        pair_key(signer, option_id),
                        (option_balance_of(m0, signer, option_id) + amount) as u64,
                    ),
                ) - f((pair_key(signer, option_id), option_balance_of(m0, signer, option_id))));
            }
            assert forall|id: u64| #[trigger] vault_of(m1, id) >= pool_left_sum(m1, id)
                + listing_sum(m1, id) by {
                assert(vault_of(m0, id) >= pool_left_sum(m0, id) + listing_sum(m0, id));
                let f = listing_contrib(id);
                let k = triple_key(option_id, owner, price);
                let l = listings_m(m0)[k];
                assert(sum_by(m1.listings, f) == sum_by(m0.listings, f) - f((k, l)) + f(
                    (
                        k,
                        (Listing {
                            underlying_mint: l.underlying_mint,
                            option_mint: l.option_mint,
                            owner: l.owner,
                            amount: (l.amount - amount) as u64,
                            price: l.price,
                        }),
                    ),
                ));
            }
            let f = coin_contrib();
            assert(f((record_key(signer), 0u64)) == 0);
            assert(f((record_key(owner), 0u64)) == 0);
            assert(sum_by(mid_native, f) == sum_by(m0.native_bal, f) - paid);
            assert(sum_by(m1.native_bal, f) == sum_by(mid_native, f) + paid);
        }
        Ok(())
    }

    /// Returns a listing's remaining escrow to its owner and destroys the
    /// record. Only the owner may close, and only once the contract is past
    /// expiry — or absent, the same permissive reading `close_pool` takes.
    pub fn close_listing(
        &mut self,
        signer: u64,
        option_id: u64,
        owner: u64,
        price: u64,
        now: u64,
    ) -> (r: Result<(), CustomError>)
        requires
            old(self).wf(),
        ensures
            final(self).wf(),
            r == close_listing_outcome(old(self)@, signer, option_id, owner, price, now),
            r is Err ==> final(self)@ == old(self)@,
            r is Ok ==> ({
                let m0 = old(self)@;
                let m1 = final(self)@;
                let l = listing_of(m0, option_id, owner, price).unwrap();
                &&& listings_m(m1) == listings_m(m0).remove(triple_key(option_id, owner, price))
                &&& holder_m(m1) == holder_m(m0).insert(
                    record_key(option_id),
                    (vault_of(m0, option_id) - l.amount) as u64,
                )
                &&& opt_bal_m(m1) == opt_bal_m(m0).insert(
                    pair_key(owner, option_id),
                    (option_balance_of(m0, owner, option_id) + l.amount) as u64,
                )
                &&& m1.contracts == m0.contracts
                &&& m1.supplies == m0.supplies
                &&& m1.pools == m0.pools
                &&& m1.asset_bal == m0.asset_bal
                &&& m1.coll_vault == m0.coll_vault
                &&& m1.native_bal == m0.native_bal
                &&& m1.authority_native == m0.authority_native
            }),
    {
        let k_listing = Key { a: option_id, b: owner, c: price };
        let listing = match self.listings.get(k_listing) {
            None => {
                return Err(CustomError::InvalidAccount);
            },
            Some(l) => l,
        };
        match self.contracts.get(Key { a: option_id, b: 0, c: 0 }) {
            Some(c) => {
                if now <= c.end_time {
                    return Err(CustomError::OptionNotExpired);
                }
            },
            None => {},
        }
        if signer != owner {
            return Err(CustomError::WrongOwner);
        }
        proof {
            let m0 = old(self)@;
            assert(circulating(m0, option_id) == vault_of(m0, option_id) + wallet_sum(
                m0,
                option_id,
            ));
            assert(vault_of(m0, option_id) >= pool_left_sum(m0, option_id) + listing_sum(
                m0,
                option_id,
            ));
            crate::model::lemma_listing_le_sum(m0, option_id, owner, price);
            crate::model::lemma_escrow_sums_nonneg(m0, option_id);
            crate::model::lemma_wallet_le_sum(m0, owner, option_id);
        }
        debit(&mut self.holder_vault, Key { a: option_id, b: 0, c: 0 }, listing.amount);
        credit(&mut self.opt_bal, Key { a: owner, b: option_id, c: 0 }, listing.amount);
        self.listings.remove(k_listing);
        proof {
            let m0 = old(self)@;
            let m1 = self@;
            crate::model::lemma_supplies_clause(m0, m1);
            crate::model::lemma_contracts_clause(m0, m1);
            crate::model::lemma_pools_clause(m0, m1);
            assert forall|k: Key| #[trigger] listings_m(m1).dom().contains(k) implies {
                &&& listings_m(m1)[k].option_mint == k.a
                &&& listings_m(m1)[k].owner == k.b
                &&& listings_m(m1)[k].price == k.c
            } by {
                assert(listings_m(m0).dom().contains(k));
            }
            assert forall|id: u64| #[trigger] circulating(m1, id) == vault_of(m1, id)
                + wallet_sum(m1, id) by {
                assert(circulating(m0, id) == vault_of(m0, id) + wallet_sum(m0, id));
                let f = wallet_contrib(id);
                assert(f((pair_key(owner, option_id), 0u64)) == 0);
                assert(sum_by(m1.opt_bal, f) == sum_by(m0.opt_bal, f) + f(
                    (
                        pair_key(owner, option_id),
                        (option_balance_of(m0, owner, option_id)
                            + listing_amount_of(m0, option_id, owner, price)) as u64,
                    ),
                ) - f((pair_key(owner, option_id), option_balance_of(m0, owner, option_id))));
            }
            assert forall|id: u64| #[trigger] vault_of(m1, id) >= pool_left_sum(m1, id)
                + listing_sum(m1, id) by {
                assert(vault_of(m0, id) >= pool_left_sum(m0, id) + listing_sum(m0, id));
                let f = listing_contrib(id);
                let k = triple_key(option_id, owner, price);
                assert(sum_by(m1.listings, f) == sum_by(m0.listings, f) - f(
                    (k, listings_m(m0)[k]),
                ));
            }
        }
        Ok(())
    }

    /// Settles `amount` units strictly before expiry: a call pays the issuer
    /// `strike_price * amount` native currency and releases that many
    /// underlying units from the collateral vault; a put delivers the
    /// underlying to the issuer against `strike_price * amount` from the
    /// program authority. The option tokens are burned and the contract's
    /// unexercised reservation is decremented, both checked before any leg
    /// moves. Nothing correlates `amount` with tokens pledged into pools or
    /// listings: a different holder can still drain collateral they advertise.
    pub fn exercise(&mut self, signer: u64, option_id: u64, amount: u64, now: u64) -> (r: Result<
        (),
        CustomError,
    >)
        requires
            old(self).wf(),
        ensures
            final(self).wf(),
            r == exercise_outcome(old(self)@, signer, option_id, amount, now),
            r is Err ==> final(self)@ == old(self)@,
            r is Ok ==> total_native(final(self)@) == total_native(old(self)@),
            r is Ok ==> forall|a: u64| #[trigger]
                total_asset(final(self)@, a) == total_asset(old(self)@, a),
            r is Ok ==> ({
                let m0 = old(self)@;
                let m1 = final(self)@;
                let c = contract_of(m0, option_id).unwrap();
                let s = supply_of(m0, option_id).unwrap();
                let cost = c.strike_price * amount;
                &&& contracts_m(m1) == contracts_m(m0).insert(
                    record_key(option_id),
                    (OptionDataAccount {
                        creator: c.creator,
                        underlying_mint: c.underlying_mint,
                        end_time: c.end_time,
                        strike_price: c.strike_price,
                        amount_unexercised: (c.amount_unexercised - amount) as u64,
                        call: c.call,
                        resellable: c.resellable,
                    }),
                )
                &&& supplies_m(m1) == supplies_m(m0).insert(
                    record_key(option_id),
                    (Supply { minted: s.minted, burned: (s.burned + amount) as u64 }),
                )
                &&& opt_bal_m(m1) == opt_bal_m(m0).insert(
                    pair_key(signer, option_id),
                    (option_balance_of(m0, signer, option_id) - amount) as u64,
                )
                &&& m1.pools == m0.pools
                &&& m1.listings == m0.listings
                &&& m1.holder_vault == m0.holder_vault
                &&& if c.call {
                    let creator_mid = if c.creator == signer {
                        native_of(m0, signer) - cost
                    } else {
                        native_of(m0, c.creator) as int
                    };
                    &&& native_m(m1) == native_m(m0).insert(
                        record_key(signer),
                        (native_of(m0, signer) - cost) as u64,
                    ).insert(record_key(c.creator), (creator_mid + cost) as u64)
                    &&& coll_m(m1) == coll_m(m0).insert(
                        record_key(c.underlying_mint),
                        (collateral_of(m0, c.underlying_mint) - amount) as u64,
                    )
                    &&& asset_bal_m(m1) == asset_bal_m(m0).insert(
                        pair_key(signer, c.underlying_mint),
                        (asset_balance_of(m0, signer, c.underlying_mint) + amount) as u64,
                    )
                    &&& m1.authority_native == m0.authority_native
                } else {
                    let creator_mid = if c.creator == signer {
                        asset_balance_of(m0, signer, c.underlying_mint) - amount
                    } else {
                        asset_balance_of(m0, c.creator, c.underlying_mint) as int
                    };
                    &&& asset_bal_m(m1) == asset_bal_m(m0).insert(
                        pair_key(signer, c.underlying_mint),
                        (asset_balance_of(m0, signer, c.underlying_mint) - amount) as u64,
                    ).insert(pair_key(c.creator, c.underlying_mint), (creator_mid + amount) as u64)
                    &&& native_m(m1) == native_m(m0).insert(
                        record_key(signer),
                        (native_of(m0, signer) + cost) as u64,
                    )
                    &&& m1.authority_native == m0.authority_native - cost
                    &&& coll_m(m1) == coll_m(m0)
                }
            }),
    {
        let k_opt = Key { a: option_id, b: 0, c: 0 };
        let c = match self.contracts.get(k_opt) {
            None => {
                return Err(CustomError::InvalidAccount);
            },
            Some(c) => c,
        };
        if now > c.end_time {
            return Err(CustomError::OptionExpired);
        }
        if c.amount_unexercised < amount {
            return Err(CustomError::NotEnoughOptionToken);
        }
        let k_bal = Key { a: signer, b: option_id, c: 0 };
        let wallet = read_bal(&self.opt_bal, k_bal);
        if wallet < amount {
            return Err(CustomError::ArithmeticUnderflow);
        }
        if c.call {
            let cost = match c.strike_price.checked_mul(amount) {
                None => {
                    return Err(CustomError::ArithmeticOverflow);
                },
                Some(x) => x,
            };
            let k_sig_native = Key { a: signer, b: 0, c: 0 };
            let k_cre_native = Key { a: c.creator, b: 0, c: 0 };
            let nb_s = read_bal(&self.native_bal, k_sig_native);
            if nb_s < cost {
                return Err(CustomError::ArithmeticUnderflow);
            }
            let creator_mid = if c.creator == signer {
                nb_s - cost
            } else {
                read_bal(&self.native_bal, k_cre_native)
            };
            if cost > u64::MAX - creator_mid {
                return Err(CustomError::ArithmeticOverflow);
            }
            let k_coll = Key { a: c.underlying_mint, b: 0, c: 0 };
            let coll = read_bal(&self.coll_vault, k_coll);
            if coll < amount {
                return Err(CustomError::ArithmeticUnderflow);
            }
            let k_sig_asset = Key { a: signer, b: c.underlying_mint, c: 0 };
            let asset_have = read_bal(&self.asset_bal, k_sig_asset);
            if amount > u64::MAX - asset_have {
                return Err(CustomError::ArithmeticOverflow);
            }
            debit(&mut self.native_bal, k_sig_native, cost);
            let ghost mid_native = self.native_bal@;
            credit(&mut self.native_bal, k_cre_native, cost);
            debit(&mut self.coll_vault, k_coll, amount);
            credit(&mut self.asset_bal, k_sig_asset, amount);
            proof {
                let m0 = old(self)@;
                let f = coin_contrib();
                assert(f((record_key(signer), 0u64)) == 0);
                assert(f((record_key(c.creator), 0u64)) == 0);
                assert(sum_by(mid_native, f) == sum_by(m0.native_bal, f) - cost);
                assert(sum_by(self@.native_bal, f) == sum_by(mid_native, f) + cost);
                assert forall|a: u64| #[trigger] sum_by(self@.asset_bal, wallet_contrib(a))
                    == sum_by(m0.asset_bal, wallet_contrib(a)) + (if a == c.underlying_mint {
                    amount as int
                } else {
                    0
                }) by {
                    let g = wallet_contrib(a);
                    assert(g((pair_key(signer, c.underlying_mint), 0u64)) == 0);
                    assert(sum_by(self@.asset_bal, g) == sum_by(m0.asset_bal, g) + g(
                        (
                            pair_key(signer, c.underlying_mint),
                            (asset_balance_of(m0, signer, c.underlying_mint) + amount) as u64,
                        ),
                    ) - g(
                        (
                            pair_key(signer, c.underlying_mint),
                            asset_balance_of(m0, signer, c.underlying_mint),
                        ),
                    ));
                }
            }
        } else {
            let k_sig_asset = Key { a: signer, b: c.underlying_mint, c: 0 };
            let k_cre_asset = Key { a: c.creator, b: c.underlying_mint, c: 0 };
            let a_s = read_bal(&self.asset_bal, k_sig_asset);
            if a_s < amount {
                return Err(CustomError::ArithmeticUnderflow);
            }
            let creator_mid = if c.creator == signer {
                a_s - amount
            } else {
                read_bal(&self.asset_bal, k_cre_asset)
            };
            if amount > u64::MAX - creator_mid {
                return Err(CustomError::ArithmeticOverflow);
            }
            let payout = match c.strike_price.checked_mul(amount) {
                None => {
                    return Err(CustomError::ArithmeticOverflow);
                },
                Some(x) => x,
            };
            if self.authority_native < payout {
                return Err(CustomError::ArithmeticUnderflow);
            }
            let k_sig_native = Key { a: signer, b: 0, c: 0 };
            let nb_s = read_bal(&self.native_bal, k_sig_native);
            if payout > u64::MAX - nb_s {
                return Err(CustomError::ArithmeticOverflow);
            }
            debit(&mut self.asset_bal, k_sig_asset, amount);
            let ghost mid_asset = self.asset_bal@;
            credit(&mut self.asset_bal, k_cre_asset, amount);
            self.authority_native = self.authority_native - payout;
            credit(&mut self.native_bal, k_sig_native, payout);
            proof {
                let m0 = old(self)@;
                let f = coin_contrib();
                assert(f((record_key(signer), 0u64)) == 0);
                assert(sum_by(self@.native_bal, f) == sum_by(m0.native_bal, f) + payout);
                assert forall|a: u64| #[trigger] sum_by(self@.asset_bal, wallet_contrib(a))
                    == sum_by(m0.asset_bal, wallet_contrib(a)) by {
                    let g = wallet_contrib(a);
                    assert(g((pair_key(signer, c.underlying_mint), 0u64)) == 0);
                    assert(g((pair_key(c.creator, c.underlying_mint), 0u64)) == 0);
                    assert(sum_by(mid_asset, g) == sum_by(m0.asset_bal, g) - (if a
                        == c.underlying_mint {
                        amount as int
                    } else {
                        0
                    }));
                    assert(sum_by(self@.asset_bal, g) == sum_by(mid_asset, g) + (if a
                        == c.underlying_mint {
                        amount as int
                    } else {
                        0
                    }));
                }
            }
        }
        proof {
            let m0 = old(self)@;
            assert(circulating(m0, option_id) == vault_of(m0, option_id) + wallet_sum(
                m0,
                option_id,
            ));
            crate::model::lemma_wallet_le_sum(m0, signer, option_id);
            assert(contracts_m(m0).dom().contains(record_key(option_id)));
            assert(supplies_m(m0).dom().contains(record_key(option_id)));
            assert(self@.opt_bal == m0.opt_bal);
            assert(self@.supplies == m0.supplies);
        }
        let supply = match self.supplies.get(k_opt) {
            Some(s) => s,
            None => {
                proof {
                    assert(false);
                }
                Supply { minted: 0, burned: 0 }
            },
        };
        debit(&mut self.opt_bal, k_bal, amount);
        self.supplies.put(k_opt, Supply { minted: supply.minted, burned: supply.burned + amount });
        self.contracts.put(
            k_opt,
            OptionDataAccount {
                creator: c.creator,
                underlying_mint: c.underlying_mint,
                end_time: c.end_time,
                strike_price: c.strike_price,
                amount_unexercised: c.amount_unexercised - amount,
                call: c.call,
                resellable: c.resellable,
            },
        );
        proof {
            let m0 = old(self)@;
            let m1 = self@;
            crate::model::lemma_pools_clause(m0, m1);
            crate::model::lemma_listings_clause(m0, m1);
            assert forall|k: Key| #[trigger] supplies_m(m1).dom().contains(k) implies supplies_m(
                m1,
            )[k].burned <= supplies_m(m1)[k].minted by {
                if k != record_key(option_id) {
                    assert(supplies_m(m0).dom().contains(k));
                }
            }
            assert forall|k: Key| #[trigger] contracts_m(m1).dom().contains(k) implies {
                &&& supplies_m(m1).dom().contains(k)
                &&& contracts_m(m1)[k].amount_unexercised <= supplies_m(m1)[k].minted
            } by {
                if k != record_key(option_id) {
                    assert(contracts_m(m0).dom().contains(k));
                    assert(supplies_m(m0).dom().contains(k));
                }
            }
            assert forall|id: u64| #[trigger] circulating(m1, id) == vault_of(m1, id)
                + wallet_sum(m1, id) by {
                assert(circulating(m0, id) == vault_of(m0, id) + wallet_sum(m0, id));
                let f = wallet_contrib(id);
                assert(f((pair_key(signer, option_id), 0u64)) == 0);
                assert(sum_by(m1.opt_bal, f) == sum_by(m0.opt_bal, f) + f(
                    (
                        pair_key(signer, option_id),
                        (option_balance_of(m0, signer, option_id) - amount) as u64,
                    ),
                ) - f((pair_key(signer, option_id), option_balance_of(m0, signer, option_id))));
            }
            assert forall|id: u64| #[trigger] vault_of(m1, id) >= pool_left_sum(m1, id)
                + listing_sum(m1, id) by {
                assert(vault_of(m0, id) >= pool_left_sum(m0, id) + listing_sum(m0, id));
            }
            assert(total_native(m1) == total_native(m0));
            assert forall|a: u64| #[trigger] total_asset(m1, a) == total_asset(m0, a) by {
                if c.call {
                    assert(sum_by(m1.asset_bal, wallet_contrib(a)) == sum_by(
                        m0.asset_bal,
                        wallet_contrib(a),
                    ) + (if a == c.underlying_mint {
                        amount as int
                    } else {
                        0
                    }));
                } else {
                    assert(sum_by(m1.asset_bal, wallet_contrib(a)) == sum_by(
                        m0.asset_bal,
                        wallet_contrib(a),
                    ));
                }
            }
        }
        Ok(())
    }

    /// Returns the unexercised collateral to the issuer once the contract is
    /// at or past expiry, and destroys the contract record. Option tokens
    /// still circulating are not burned: from this point they are
    /// permanently unredeemable, the intended end of the series' life.
    pub fn claim(&mut self, signer: u64, option_id: u64, now: u64) -> (r: Result<(), CustomError>)
        requires
            old(self).wf(),
        ensures
            final(self).wf(),
            r == claim_outcome(old(self)@, signer, option_id, now),
            r is Err ==> final(self)@ == old(self)@,
            r is Ok ==> total_native(final(self)@) == total_native(old(self)@),
            r is Ok ==> forall|a: u64| #[trigger]
                total_asset(final(self)@, a) == total_asset(old(self)@, a),
            r is Ok ==> ({
                let m0 = old(self)@;
                let m1 = final(self)@;
                let c = contract_of(m0, option_id).unwrap();
                &&& contracts_m(m1) == contracts_m(m0).remove(record_key(option_id))
                &&& m1.supplies == m0.supplies
                &&& m1.pools == m0.pools
                &&& m1.listings == m0.listings
                &&& m1.opt_bal == m0.opt_bal
                &&& m1.holder_vault == m0.holder_vault
                &&& if c.call {
                    &&& coll_m(m1) == coll_m(m0).insert(
                        record_key(c.underlying_mint),
                        (collateral_of(m0, c.underlying_mint) - c.amount_unexercised) as u64,
                    )
                    &&& asset_bal_m(m1) == asset_bal_m(m0).insert(
                        pair_key(signer, c.underlying_mint),
                        (asset_balance_of(m0, signer, c.underlying_mint)
                            + c.amount_unexercised) as u64,
                    )
                    &&& m1.native_bal == m0.native_bal
                    &&& m1.authority_native == m0.authority_native
                } else {
                    &&& native_m(m1) == native_m(m0).insert(
                        record_key(signer),
                        (native_of(m0, signer) + c.amount_unexercised * c.strike_price) as u64,
                    )
                    &&& m1.authority_native == m0.authority_native - c.amount_unexercised
                        * c.strike_price
                    &&& m1.asset_bal == m0.asset_bal
                    &&& m1.coll_vault == m0.coll_vault
                }
            }),
    {
        let k_opt = Key { a: option_id, b: 0, c: 0 };
        let c = match self.contracts.get(k_opt) {
            None => {
                return Err(CustomError::InvalidAccount);
            },
            Some(c) => c,
        };
        if signer != c.creator {
            return Err(CustomError::WrongOwner);
        }
        if now < c.end_time {
            return Err(CustomError::OptionNotExpired);
        }
        if c.call {
            let k_coll = Key { a: c.underlying_mint, b: 0, c: 0 };
            let coll = read_bal(&self.coll_vault, k_coll);
            if coll < c.amount_unexercised {
                return Err(CustomError::ArithmeticUnderflow);
            }
            let k_sig_asset = Key { a: signer, b: c.underlying_mint, c: 0 };
            let asset_have = read_bal(&self.asset_bal, k_sig_asset);
            if c.amount_unexercised > u64::MAX - asset_have {
                return Err(CustomError::ArithmeticOverflow);
            }
            debit(&mut self.coll_vault, k_coll, c.amount_unexercised);
            credit(&mut self.asset_bal, k_sig_asset, c.amount_unexercised);
            proof {
                let m0 = old(self)@;
                assert forall|a: u64| #[trigger] sum_by(self@.asset_bal, wallet_contrib(a))
                    == sum_by(m0.asset_bal, wallet_contrib(a)) + (if a == c.underlying_mint {
                    c.amount_unexercised as int
                } else {
                    0
                }) by {
                    let g = wallet_contrib(a);
                    assert(g((pair_key(signer, c.underlying_mint), 0u64)) == 0);
                    assert(sum_by(self@.asset_bal, g) == sum_by(m0.asset_bal, g) + g(
                        (
                            pair_key(signer, c.underlying_mint),
                            (asset_balance_of(m0, signer, c.underlying_mint)
                                + c.amount_unexercised) as u64,
                        ),
                    ) - g(
                        (
                            pair_key(signer, c.underlying_mint),
                            asset_balance_of(m0, signer, c.underlying_mint),
                        ),
                    ));
                }
            }
        } else {
            let payout = match c.amount_unexercised.checked_mul(c.strike_price) {
                None => {
                    return Err(CustomError::ArithmeticOverflow);
                },
                Some(x) => x,
            };
            if self.authority_native < payout {
                return Err(CustomError::ArithmeticUnderflow);
            }
            let k_sig_native = Key { a: signer, b: 0, c: 0 };
            let nb_s = read_bal(&self.native_bal, k_sig_native);
            if payout > u64::MAX - nb_s {
                return Err(CustomError::ArithmeticOverflow);
            }
            self.authority_native = self.authority_native - payout;
            credit(&mut self.native_bal, k_sig_native, payout);
            proof {
                let m0 = old(self)@;
                let f = coin_contrib();
                assert(f((record_key(signer), 0u64)) == 0);
                assert(sum_by(self@.native_bal, f) == sum_by(m0.native_bal, f) + payout);
            }
        }
        self.contracts.remove(k_opt);
        proof {
            let m0 = old(self)@;
            let m1 = self@;
            crate::model::lemma_supplies_clause(m0, m1);
            crate::model::lemma_pools_clause(m0, m1);
            crate::model::lemma_listings_clause(m0, m1);
            assert forall|k: Key| #[trigger] contracts_m(m1).dom().contains(k) implies {
                &&& supplies_m(m1).dom().contains(k)
                &&& contracts_m(m1)[k].amount_unexercised <= supplies_m(m1)[k].minted
            } by {
                assert(contracts_m(m0).dom().contains(k));
            }
            assert forall|id: u64| #[trigger] circulating(m1, id) == vault_of(m1, id)
                + wallet_sum(m1, id) by {
                assert(circulating(m0, id) == vault_of(m0, id) + wallet_sum(m0, id));
            }
            assert forall|id: u64| #[trigger] vault_of(m1, id) >= pool_left_sum(m1, id)
                + listing_sum(m1, id) by {
                assert(vault_of(m0, id) >= pool_left_sum(m0, id) + listing_sum(m0, id));
            }
            assert(total_native(m1) == total_native(m0));
            assert forall|a: u64| #[trigger] total_asset(m1, a) == total_asset(m0, a) by {
                if c.call {
                    assert(sum_by(m1.asset_bal, wallet_contrib(a)) == sum_by(
                        m0.asset_bal,
                        wallet_contrib(a),
                    ) + (if a == c.underlying_mint {
                        c.amount_unexercised as int
                    } else {
                        0
                    }));
                } else {
                    assert(sum_by(m1.asset_bal, wallet_contrib(a)) == sum_by(
                        m0.asset_bal,
                        wallet_contrib(a),
                    ));
                }
            }
        }
        Ok(())
    }

    /// The contract recorded for one option-token series, if any.
    pub fn get_contract(&self, option_id: u64) -> (r: Option<OptionDataAccount>)
        requires
            self.wf(),
        ensures
            r == contract_of(self@, option_id),
    {
        self.contracts.get(Key { a: option_id, b: 0, c: 0 })
    }

    /// The mint and burn totals of one option-token series, if any exist.
    pub fn get_supply(&self, option_id: u64) -> (r: Option<Supply>)
        requires
            self.wf(),
        ensures
            r == supply_of(self@, option_id),
    {
        self.supplies.get(Key { a: option_id, b: 0, c: 0 })
    }

    /// The pool at (series, base price), if any.
    pub fn get_pool(&self, option_id: u64, base_price: u64) -> (r: Option<Pool>)
        requires
            self.wf(),
        ensures
            r == pool_of(self@, option_id, base_price),
    {
        self.pools.get(Key { a: option_id, b: base_price, c: 0 })
    }

    /// The listing at (series, owner, price), if any.
    pub fn get_listing(&self, option_id: u64, owner: u64, price: u64) -> (r: Option<Listing>)
        requires
            self.wf(),
        ensures
            r == listing_of(self@, option_id, owner, price),
    {
        self.listings.get(Key { a: option_id, b: owner, c: price })
    }

    /// Option tokens of `option_id` that `acct` holds.
    pub fn option_balance(&self, acct: u64, option_id: u64) -> (v: u64)
        requires
            self.wf(),
        ensures
            v == option_balance_of(self@, acct, option_id),
    {
        read_bal(&self.opt_bal, Key { a: acct, b: option_id, c: 0 })
    }

    /// Underlying-asset units of `asset` that `acct` holds.
    pub fn asset_balance(&self, acct: u64, asset: u64) -> (v: u64)
        requires
            self.wf(),
        ensures
            v == asset_balance_of(self@, acct, asset),
    {
        read_bal(&self.asset_bal, Key { a: acct, b: asset, c: 0 })
    }

    /// Native currency that `acct` holds.
    pub fn native_balance(&self, acct: u64) -> (v: u64)
        requires
            self.wf(),
        ensures
            v == native_of(self@, acct),
    {
        read_bal(&self.native_bal, Key { a: acct, b: 0, c: 0 })
    }

    /// Option tokens of `option_id` custodied by the program for pools and
    /// listings.
    pub fn holder_vault_balance(&self, option_id: u64) -> (v: u64)
        requires
            self.wf(),
        ensures
            v == vault_of(self@, option_id),
    {
        read_bal(&self.holder_vault, Key { a: option_id, b: 0, c: 0 })
    }

    /// Underlying collateral of `asset` locked by issuance.
    pub fn collateral_balance(&self, asset: u64) -> (v: u64)
        requires
            self.wf(),
        ensures
            v == collateral_of(self@, asset),
    {
        read_bal(&self.coll_vault, Key { a: asset, b: 0, c: 0 })
    }

    /// Native currency held by the program authority.
    pub fn authority_balance(&self) -> (v: u64)
        ensures
            v == self@.authority_native,
    {
        self.authority_native
    }

    /// Invariant preservation for a completed swap: the wallet and vault
    /// deltas cancel in the conservation sum, and the pool's reserve delta
    /// matches the vault's in the coverage sum.
    proof fn lemma_swap_inv(
        &self,
        prev: Ledger,
        signer: u64,
        option_id: u64,
        base_price: u64,
        amount: u64,
        p: Pool,
        left_to_right: bool,
    )
        requires
            inv(prev@),
            pool_of(prev@, option_id, base_price) == Some(p),
            self@.contracts == prev@.contracts,
            self@.supplies == prev@.supplies,
            self@.listings == prev@.listings,
            crate::store::unique_keys(self@.pools),
            crate::store::unique_keys(self@.opt_bal),
            crate::store::unique_keys(self@.holder_vault),
            crate::store::unique_keys(self@.native_bal),
            self@.asset_bal == prev@.asset_bal,
            self@.coll_vault == prev@.coll_vault,
            left_to_right ==> amount <= p.left && amount <= vault_of(prev@, option_id)
                && option_balance_of(prev@, signer, option_id) + amount <= u64::MAX,
            !left_to_right ==> amount <= option_balance_of(prev@, signer, option_id) && vault_of(
                prev@,
                option_id,
            ) + amount <= u64::MAX,
            pools_m(self@) == pools_m(prev@).insert(
                pair_key(option_id, base_price),
                (Pool {
                    option_mint: option_id,
                    base_price: base_price,
                    left: (if left_to_right {
                        p.left - amount
                    } else {
                        p.left + amount
                    }) as u64,
                    right: (if left_to_right {
                        p.right + amount
                    } else {
                        p.right - amount
                    }) as u64,
                }),
            ),
            holder_m(self@) == holder_m(prev@).insert(
                record_key(option_id),
                (if left_to_right {
                    vault_of(prev@, option_id) - amount
                } else {
                    vault_of(prev@, option_id) + amount
                }) as u64,
            ),
            opt_bal_m(self@) == opt_bal_m(prev@).insert(
                pair_key(signer, option_id),
                (if left_to_right {
                    option_balance_of(prev@, signer, option_id) + amount
                } else {
                    option_balance_of(prev@, signer, option_id) - amount
                }) as u64,
            ),
            forall|f: spec_fn((Key, u64)) -> int|
                f((pair_key(signer, option_id), 0u64)) == 0 ==> #[trigger] sum_by(
                    self@.opt_bal,
                    f,
                ) == sum_by(prev@.opt_bal, f) + f(
                    (
                        pair_key(signer, option_id),
                        (if left_to_right {
                            option_balance_of(prev@, signer, option_id) + amount
                        } else {
                            option_balance_of(prev@, signer, option_id) - amount
                        }) as u64,
                    ),
                ) - f((pair_key(signer, option_id), option_balance_of(prev@, signer, option_id))),
            forall|f: spec_fn((Key, Pool)) -> int|
                #[trigger] sum_by(self@.pools, f) == sum_by(prev@.pools, f) - f(
                    (pair_key(option_id, base_price), p),
                ) + f(
                    (
                        pair_key(option_id, base_price),
                        (Pool {
                            option_mint: option_id,
                            base_price: base_price,
                            left: (if left_to_right {
                                p.left - amount
                            } else {
                                p.left + amount
                            }) as u64,
                            right: (if left_to_right {
                                p.right + amount
                            } else {
                                p.right - amount
                            }) as u64,
                        }),
                    ),
                ),
        ensures
            inv(self@),
    {
        let m0 = prev@;
        let m1 = self@;
        crate::model::lemma_supplies_clause(m0, m1);
        crate::model::lemma_contracts_clause(m0, m1);
        crate::model::lemma_listings_clause(m0, m1);
        assert forall|k: Key| #[trigger] pools_m(m1).dom().contains(k) implies {
            &&& pools_m(m1)[k].option_mint == k.a
            &&& pools_m(m1)[k].base_price == k.b
        } by {
            if k != pair_key(option_id, base_price) {
                assert(pools_m(m0).dom().contains(k));
            }
        }
        assert forall|id: u64| #[trigger] circulating(m1, id) == vault_of(m1, id) + wallet_sum(
            m1,
            id,
        ) by {
            assert(circulating(m0, id) == vault_of(m0, id) + wallet_sum(m0, id));
            let f = wallet_contrib(id);
            assert(f((pair_key(signer, option_id), 0u64)) == 0);
            assert(sum_by(m1.opt_bal, f) == sum_by(m0.opt_bal, f) + f(
                (
                    pair_key(signer, option_id),
                    (if left_to_right {
                        option_balance_of(m0, signer, option_id) + amount
                    } else {
                        option_balance_of(m0, signer, option_id) - amount
                    }) as u64,
                ),
            ) - f((pair_key(signer, option_id), option_balance_of(m0, signer, option_id))));
        }
        assert forall|id: u64| #[trigger] vault_of(m1, id) >= pool_left_sum(m1, id) + listing_sum(
            m1,
            id,
        ) by {
            assert(vault_of(m0, id) >= pool_left_sum(m0, id) + listing_sum(m0, id));
            let f = pool_contrib(id);
            assert(sum_by(m1.pools, f) == sum_by(m0.pools, f) - f(
                (pair_key(option_id, base_price), p),
            ) + f(
                (
                    pair_key(option_id, base_price),
                    (Pool {
                        option_mint: option_id,
                        base_price: base_price,
                        left: (if left_to_right {
                            p.left - amount
                        } else {
                            p.left + amount
                        }) as u64,
                        right: (if left_to_right {
                            p.right + amount
                        } else {
                            p.right - amount
                        }) as u64,
                    }),
                ),
            ));
        }
    }

    /// An operation that only moved native currency, asset balances or
    /// collateral preserves the invariant: every clause about option tokens
    /// reads state it did not touch.
    proof fn lemma_token_side_untouched(&self, prev: Ledger)
        requires
            inv(prev@),
            self@.contracts == prev@.contracts,
            self@.supplies == prev@.supplies,
            self@.pools == prev@.pools,
            self@.listings == prev@.listings,
            self@.opt_bal == prev@.opt_bal,
            self@.holder_vault == prev@.holder_vault,
            crate::store::unique_keys(self@.asset_bal),
            crate::store::unique_keys(self@.coll_vault),
            crate::store::unique_keys(self@.native_bal),
        ensures
            inv(self@),
    {
        let m0 = prev@;
        let m1 = self@;
        assert forall|id: u64| #[trigger] circulating(m1, id) == vault_of(m1, id) + wallet_sum(
            m1,
            id,
        ) by {
            assert(circulating(m0, id) == vault_of(m0, id) + wallet_sum(m0, id));
        }
        assert forall|id: u64| #[trigger] vault_of(m1, id) >= pool_left_sum(m1, id) + listing_sum(
            m1,
            id,
        ) by {
            assert(vault_of(m0, id) >= pool_left_sum(m0, id) + listing_sum(m0, id));
        }
        crate::model::lemma_records_untouched(m0, m1);
    }
}

} // verus!
