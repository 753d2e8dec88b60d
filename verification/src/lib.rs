//! The replicated state machine core of a metadata service.
//!
//! A consensus layer hands this crate a totally ordered stream of committed log
//! entries. Each entry is applied deterministically to five logical keyspaces
//! (sequences, state-machine meta, nodes, generic key-value records and client
//! responses) and produces a response that is the same on every replica.
//!
//! The state machine is stated twice. [`model`] says what applying an entry
//! means, as functions on maps; [`state_machine`] is the code that does it,
//! proved to compute what the model says. What holds of every run is proved of
//! the model in [`laws`] and [`snapshot_laws`].
//!
//! The crate touches no disk. What a durable store has to hold is described
//! in [`journal`]: the state machine notes each change as a write, and hands
//! the writes of one applied entry over as one batch.
//!
//! Every function that depends on the time comes twice: once taking the time
//! as an argument, with a contract that says exactly what it does, and once
//! reading the [`clock`], with a contract that holds whatever the clock reads.

pub mod bytes;
pub mod text;
pub mod clock;
pub mod keyspace;
pub mod types;
pub mod txn;
pub mod cmd;
pub mod model;
pub mod codec;
pub mod encoding;
pub mod journal;
pub mod state_machine;
pub mod snapshot;
pub mod snapshot_laws;
pub mod laws;
pub mod export;
