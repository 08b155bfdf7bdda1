//! Multiversion concurrency control (MVCC) for a main-memory key-value store.
//!
//! The engine keeps, for every row, a chain of versions. Each version carries
//! a begin marker and an optional end marker; a marker is either the ID of the
//! transaction that is still working on the version, or the timestamp that
//! took its place when that transaction committed. What a transaction reads is
//! decided by comparing its begin timestamp with those markers.
//!
//! Every executable function in this crate carries a contract over the
//! mathematical model in [`state`], and the contracts are machine-checked.
//!
//! # Where to find what
//!
//! * [`database`] holds the database and its operations: begin, insert,
//!   update, delete, read, commit, rollback, garbage collection, recovery.
//! * [`row`], [`transaction`] and [`errors`] hold the data that the
//!   operations take and return; [`clock`] holds the source of timestamps.
//! * [`visibility`] holds the rules that decide what a transaction sees.
//! * [`version_store`] and [`active_begins`] hold the two containers of the
//!   engine, [`chain`] the walks over a single version chain, and
//!   [`rewrite`] what the store holds while chains are replaced one by one.
//! * [`framing`] says how log records are told apart in the durable log.
//! * [`state`] is the model. [`invariants`] proves that every operation keeps
//!   its invariant. [`laws`], [`snapshot`], [`recovery`] and [`marks`] prove
//!   what holds of whole workloads: transaction IDs grow, reads repeat, the
//!   first writer wins, garbage collection drops only what is out of sight,
//!   and recovery gives back what was committed.
//!
//! # Sharing
//!
//! A [`database::Database`] is changed through `&mut self`. A program that
//! shares one between threads puts it behind a lock.

pub mod active_begins;
pub mod chain;
pub mod clock;
pub mod database;
pub mod errors;
pub mod framing;
pub mod invariants;
pub mod laws;
pub mod marks;
pub mod recovery;
pub mod rewrite;
pub mod row;
pub mod snapshot;
pub mod state;
pub mod transaction;
pub mod version_store;
pub mod visibility;
