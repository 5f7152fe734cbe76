//! The per-connection decision logic.
//!
//! One handler runs per accepted connection, concurrently with all
//! others; the surrounding loop owns the transport and the mutual
//! exclusion over the shared [`Registry`]. The handler's decisions are
//! pure protocol: register on accept, apply each decoded frame here,
//! remove on disconnect. Decode failures are per-message and non-fatal;
//! transport failure ends only the one handler.

use vstd::prelude::*;

use crate::model::snapshot_of;
use crate::model::update_pos;
use crate::registry::Registry;
use crate::snapshot::Snapshot;
use crate::types::Position;

verus! {

/// Applies one inbound text frame, already decoded by the transport
/// layer, for the connection registered as `id`.
///
/// A frame that decoded as a position report overwrites the reporting
/// client's record and earns as reply a snapshot of the *updated*
/// registry that excludes the reporter — so the reporter's own report is
/// reflected before the reply is computed, and the reply never carries
/// the reporter's own record. A frame that failed to decode
/// (`report == None`) is silently ignored: no state change, no reply, no
/// error.
pub fn handle_frame(registry: &mut Registry, id: u128, report: Option<Position>) -> (reply: Option<
    Snapshot,
>)
    ensures
        report matches Some(p) ==> final(registry).records() == update_pos(
            old(registry).records(),
            id,
            p,
        ),
        report is None ==> *final(registry) == *old(registry),
        reply is Some <==> report is Some,
        reply matches Some(snap) ==> snap.entries() == snapshot_of(
            final(registry).records(),
            Some(id),
        ),
        final(registry).issued_ids() == old(registry).issued_ids(),
{
    match report {
        Some(p) => {
            registry.update_position(id, p);
            Some(registry.snapshot(Some(id)))
        },
        None => None,
    }
}

} // verus!
