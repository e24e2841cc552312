//! Core of a family of distributed node programs speaking the Maelstrom
//! workload protocol: the envelope codec with per-process message ids, the
//! protocol error table, per-peer acknowledged delivery with resend, and
//! the per-workload state machines (echo, unique-ids, broadcast, counter,
//! kafka-style log, key-value transactions).
//!
//! All state transitions are pure: each handler takes the node's state and a
//! decoded message and returns the envelopes to emit. Reading and writing
//! JSON lines on stdin/stdout is left to a thin unverified shell around this
//! crate.

pub mod broadcast;
pub mod counter;
pub mod delivery;
pub mod echo;
pub mod error;
pub mod kafka;
pub mod message;
pub mod txn;
pub mod unique_ids;
