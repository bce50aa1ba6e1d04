//! Splitting shared expenses: who paid what, and who has to pay whom.
//!
//! Amounts are whole numbers of the smallest currency unit (cents).

pub mod ledger;
pub mod names;
pub mod payment;
pub mod settle;
pub mod split;
pub mod transaction;
pub mod window;
