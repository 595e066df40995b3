//! Ingestion pipeline of a blockchain state consumer.
//!
//! The crate turns an ordered stream of blockchain updates (blocks,
//! microblocks, rollbacks) into mutations of a store of data entries. It
//! keeps, for every `(address, key)` pair, the chain of its values: each row
//! is superseded by the next one, and the last one is current.
//!
//! * [`data_entries`] holds the records, the model of the store
//!   ([`data_entries::store`]), the operations of a repository, the rules of
//!   ingestion ([`data_entries::daemon`]), the decoding and batching of the
//!   messages of the node ([`data_entries::updates`]), a repository in memory
//!   ([`data_entries::memory`]) and what holds of every store that ingestion
//!   reaches ([`data_entries::laws`]).
//! * [`readiness`] judges the service by the age of the last key block.
//! * [`config`] and [`error`] hold the configuration and the errors.
//! * [`text`] splits texts and reads decimal integers.
//!
//! Every function states what it returns and changes over a mathematical
//! model of its data, and is proved to meet it.
pub mod config;
pub mod data_entries;
pub mod error;
pub mod readiness;
pub mod text;
