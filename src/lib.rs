//! Runs every order-preserving interleaving of several SQL scripts against a
//! set of database clusters: the verified core holds the interleaving
//! enumerator, the work coordinator, the per-cluster statistics and the
//! decisions of the report.
pub mod algo;
pub mod config;
pub mod coordinator;
pub mod laws;
pub mod statistics;
