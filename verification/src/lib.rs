//! Incremental mirror of a remote photo library.
//!
//! The crate models the two engines that make mirroring safe to re-run
//! indefinitely: the incremental sync engine, which diffs a remote album's
//! asset inventory against the locally known state and downloads only what is
//! missing, and the adaptive conversion engine, which transcodes originals
//! into size-budgeted derivatives via iterative quality reduction. Both work
//! against a durable state store of albums and per-asset records, modelled
//! here as verified in-memory structures; the surrounding process performs
//! the network, database and file transfers and hands their outcomes to the
//! engines as plain values.

pub mod auth;
pub mod client;
pub mod config;
pub mod convert;
pub mod db;
pub mod disk;
pub mod parse;
pub mod serve;
pub mod sync;
pub mod types;
pub mod util;
