//! A closed economy of wallets whose balances accrue interest, vest and move
//! by transfers that pay fees to a single issuer.
//!
//! - `accrual`: fixed-point continuous growth and decay.
//! - `model`: accounts and the settlement, transfer and redemption rules as
//!   spec functions, with the laws they obey.
//! - `draw`: random draws through rand's generator.
//! - `ledger`: the wallets, the transaction log and the lottery.
pub mod accrual;
pub mod draw;
pub mod ledger;
pub mod model;
