//! Tracks the staked tokens of indexers of The Graph: decoded staking events
//! are turned into records, records are folded into per-indexer store
//! updates, and staked-token snapshots are rendered into database rows.

pub mod amount;
pub mod text;
pub mod records;
pub mod chain;
pub mod filter;
pub mod maps;
pub mod shapes;
pub mod stores;
pub mod sink;
pub mod tables;
pub mod laws;
pub mod module_laws;
pub mod record_laws;
