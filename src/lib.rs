//! Rule engine for a bluffing card game with an auction market, over a shared
//! ledger of balances and card inventories.
//!
//! Amounts of money are fixed-point integers with one decimal place: ten
//! stands for one whole unit.

pub mod elements;
pub mod ledger;
pub mod user;
pub mod offer;
pub mod contract;
pub mod market;
pub mod hands;
pub mod accounts;
