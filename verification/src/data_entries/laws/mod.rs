//! What holds of every store that ingestion can reach.
pub mod chains;
pub mod integrity;
pub mod microblocks;
pub mod rollback;
pub mod sequences;
