//! A log-structured, forkable key-value storage engine: per-table ordered
//! maps rebuilt by replaying append-only logs, snapshot transactions with
//! optimistic conflict checks, copy-on-write forks, and compaction planning.
pub mod bytes;
pub mod error;
pub mod keymap;
pub mod record;
pub mod loader;
pub mod table;
pub mod registry;
pub mod opener;
pub mod planner;
pub mod db;
pub mod laws;

pub use db::LogFileDB;
pub use error::{DbError, TxState};
pub use loader::{PairLoader, SegmentStat};
pub use opener::{ChainLevel, fork_chain, open_table};
pub use planner::{plan_collect, plan_table};
pub use record::{LogMethod, LogRecord, Segment};
pub use registry::{ForkRegistry, LogFileMetaTxn, MetaChange, TableMetaInfo};
pub use table::{FileMemTxn, LogFileTab};
