//! Verified core of a small real-time presence synchronizer.
//!
//! Many clients connect to one server over a persistent bidirectional
//! channel, continuously report their own 2-D position, and receive in
//! return a snapshot of every *other* connected client's position.
//!
//! This crate holds the protocol logic and proves it correct:
//!
//! * [`registry`] — the server-side store of connected clients: register,
//!   update, snapshot-read and remove, with fresh-identifier generation.
//! * [`snapshot`] — an immutable point-in-time copy of the registry,
//!   excluding at most one client (the requester).
//! * [`handler`] — the per-connection decision logic: what one inbound
//!   frame does to the registry and what reply, if any, it produces.
//! * [`reconciler`] — the client-side diff algorithm that turns a received
//!   snapshot into a minimal set of create/update/destroy operations
//!   against the locally tracked remote entities.
//! * [`codec`] — the identifier half of the wire format: the canonical
//!   text form of a client identifier, formatted and parsed with a
//!   proved round trip.
//! * [`model`] — the mathematical model: pure functions over sequences of
//!   client records that the contracts of the other modules speak of.
//! * [`laws`] — proofs of the protocol's global guarantees (identifier
//!   uniqueness, self-exclusion, read-after-write, idempotence,
//!   reconciliation minimality).
//!
//! Everything that performs I/O — accepting sockets, framing, JSON text —
//! lives outside this crate and hands the core plain values.

pub mod codec;
pub mod handler;
pub mod laws;
pub mod model;
mod records;
pub mod reconciler;
pub mod registry;
pub mod snapshot;
pub mod types;
