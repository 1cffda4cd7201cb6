//! A transactional storage core for an embedded database engine.
//!
//! The crate models durable storage as a block store holding fixed-size
//! blocks, and builds on it a pinned buffer pool, an append-only write-ahead
//! log packed back-to-front within blocks, a typed log-record codec carrying
//! pre-images for undo, a recovery manager, and a transaction layer that
//! enforces the WAL-before-data discipline.

pub mod buffermanager;
pub mod codec;
pub mod database;
pub mod concurrencymanager;
pub mod errors;
pub mod filemanager;
pub mod logmanager;
pub mod logrecord;
pub mod recoverymanager;
pub mod transaction;
