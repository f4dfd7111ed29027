//! A transactional key-value store with a write-ahead log.
pub mod bytes;
pub mod checkpoint;
pub mod codec;
pub mod crc32;
pub mod database;
pub mod entry;
pub mod error;
pub mod failure;
pub mod flusher;
pub mod format_laws;
pub mod header;
pub mod key_laws;
pub mod log;
pub mod log_laws;
pub mod queue;
pub mod recovery;
pub mod recovery_laws;
pub mod replay;
pub mod restore_laws;
pub mod run_laws;
pub mod session;
pub mod store;
pub mod transaction;
pub mod transaction_laws;
mod tx_table;
pub mod wal_laws;
pub mod wal_storage;

pub use database::{Database, DatabaseConfig};
pub use entry::WalEntry;
pub use error::WalError;
pub use header::WalEntryHeader;
pub use recovery::RecoveryStats;
pub use replay::RecoveryAction;
pub use transaction::{Transaction, TxState};
pub use wal_storage::WalStorage;
