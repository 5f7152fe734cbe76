//! The plain data the protocol moves around: positions and client records.

use vstd::prelude::*;

verus! {

/// A 2-D coordinate pair.
///
/// Each coordinate is carried as the 32-bit pattern of the value that
/// crossed the wire. The core performs no bounds checking and no
/// arithmetic on coordinates: it only stores them and hands them back, so
/// out-of-range values pass through unchanged.
#[derive(PartialEq, Eq, Structural, Clone, Copy, Debug)]
pub struct Position {
    pub x: u32,
    pub y: u32,
}

/// The position every client starts at when it registers.
pub open spec fn origin() -> Position {
    Position { x: 0, y: 0 }
}

impl Position {
    /// The default starting position, `(0, 0)`.
    pub fn start() -> (p: Position)
        ensures
            p == origin(),
    {
        Position { x: 0, y: 0 }
    }
}

/// One client's identity and last-known position.
///
/// On the server these are the registry's entries; on the client they are
/// the locally tracked remote entities reconciled from snapshots.
#[derive(PartialEq, Eq, Structural, Clone, Copy, Debug)]
pub struct ClientRecord {
    /// Process-unique identifier assigned when the connection registered.
    pub id: u128,
    /// Last position applied for this client.
    pub pos: Position,
}

/// One side effect the reconciler asks of the rendering layer.
///
/// Only membership changes drive `Create` and `Destroy`; a position change
/// of an entity present in two consecutive snapshots is always an
/// in-place `Update`, never a destroy/recreate pair.
#[derive(PartialEq, Eq, Structural, Clone, Copy, Debug)]
pub enum ReconcileOp {
    /// A new remote entity appeared: create its local representation.
    Create { id: u128, pos: Position },
    /// A tracked remote entity moved: overwrite its position in place.
    Update { id: u128, pos: Position },
    /// A tracked remote entity disappeared: destroy its local
    /// representation.
    Destroy { id: u128 },
}

} // verus!
