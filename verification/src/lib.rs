//! A small embedded store for personal-finance bookkeeping.
//!
//! Records are grouped into buckets keyed by an integer derived from a
//! calendar date.  The working set is kept in memory by a bounded LRU
//! cache that lazily faults buckets in and writes dirty buckets back on
//! eviction.  A ledger sweep propagates per-account closing balances
//! from each bucket into the next.

pub mod accounts;
pub mod binary_db_config;
pub mod common;
pub mod crypto;
pub mod data_source;
pub mod db;
pub mod errors;
pub mod finance;
pub mod id_map;
pub mod series;
pub mod subcategories;
pub mod time_series;
