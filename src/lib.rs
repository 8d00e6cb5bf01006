//! A ledger engine that replays client deposits, withdrawals and disputes and
//! keeps per-client balances in fixed-point units of one ten-thousandth.

pub mod amount;
pub mod processor;
pub mod transactions;

pub use amount::amount_units;
pub use processor::{Account, Client, LedgerError, TransactionRecord, TransactionService};
pub use transactions::{RecordError, Transaction, TransactionType};
