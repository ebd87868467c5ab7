//! A closed-supply, single-asset token ledger: balances per account, a total
//! supply fixed at construction, and a transfer that conserves that supply.

mod account;
mod ledger;

pub use account::{AccountId, Balance};
pub use ledger::{moved, sum_of_balances, Error, Vban};
