//! An options-trading ledger engine.
//!
//! The library issues collateral-backed option contracts, trades the option
//! tokens through a two-reserve bonding pool and a fixed-price marketplace,
//! settles them before expiry, and returns unused collateral to the issuer
//! afterward. All state lives in a single keyed ledger of typed records; each
//! operation is a checked, atomic state transition that either applies in full
//! or reports a typed error and leaves the ledger untouched.

pub mod engine;
pub mod laws;
pub mod model;
pub mod records;
pub mod store;
