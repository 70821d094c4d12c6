//! Two-phase-commit consensus for the services of a circuit, over a content-addressed state
//! store, with migration of a service's state from one store to another.
//!
//! - `consensus`: the coordinator and participant state machine, as a transition function.
//! - `event`: consensus events, their ordered log, and replay.
//! - `runner`: performing the actions the state machine asks for.
//! - `keys`, `entries`, `merkle`: byte-string keys, sorted snapshots, and the store.
//! - `migrate`, `plan`: moving state between stores, and choosing what to move.
//! - `roles`: validated role records.

pub mod consensus;
pub mod entries;
pub mod event;
pub mod keys;
pub mod merkle;
pub mod migrate;
pub mod plan;
pub mod roles;
pub mod runner;
