//! A shared-expense ledger: participants share the costs of tasks, settle
//! debts with direct transfers, and query their net balance at any time.
//!
//! All amounts are integers in minor currency units (cents); balances are
//! exact rationals rounded to the nearest minor unit only when reported.

pub mod errors;
pub mod text;
pub mod amount;
pub mod model;
pub mod store;
pub mod balance;
pub mod laws;
pub mod integrity;
pub mod codec;
pub mod report;
pub mod commands;
