//! A point-in-time copy of the registry's records.
//!
//! A snapshot is immutable once produced, carries each identifier at most
//! once, and is a plain value: the server computes one per inbound
//! position report and sends it back, the client feeds received ones to
//! the reconciler.

use vstd::prelude::*;

use crate::model::contains_id;
use crate::model::distinct_ids;
use crate::model::lookup;
use crate::types::ClientRecord;
use crate::types::Position;

verus! {

/// An order-irrelevant sequence of client records, each identifier
/// appearing at most once.
pub struct Snapshot {
    pub(crate) entries: Vec<ClientRecord>,
}

impl Snapshot {
    /// The records this snapshot carries, in the order they were taken.
    pub closed spec fn entries(self) -> Seq<ClientRecord> {
        self.entries@
    }

    #[verifier::type_invariant]
    pub(crate) open spec fn inv(self) -> bool {
        distinct_ids(self.entries())
    }

    /// Wraps records whose identifiers are already known to be distinct —
    /// the registry's own output.
    pub(crate) fn from_distinct(records: Vec<ClientRecord>) -> (s: Snapshot)
        requires
            distinct_ids(records@),
        ensures
            s.entries() == records@,
    {
        Snapshot { entries: records }
    }

    /// Builds a snapshot from records received over the wire. Accepts the
    /// records exactly when no identifier repeats; a sequence with a
    /// repeated identifier is no snapshot this protocol ever emits, and is
    /// rejected for the caller to ignore.
    pub fn from_records(records: Vec<ClientRecord>) -> (r: Option<Snapshot>)
        ensures
            match r {
                Some(s) => distinct_ids(records@) && s.entries() == records@,
                None => !distinct_ids(records@),
            },
    {
        let n = records.len();
        let mut i: usize = 0;
        while i < n
            invariant
                n == records@.len(),
                i <= n,
                forall|a: int, b: int| 0 <= a < b < i ==> records@[a].id != records@[b].id,
            decreases n - i,
        {
            let mut j: usize = 0;
            while j < i
                invariant
                    i < n,
                    n == records@.len(),
                    j <= i,
                    forall|b: int| 0 <= b < j ==> records@[b].id != records@[i as int].id,
                decreases i - j,
            {
                if records[j].id == records[i].id {
                    return None;
                }
                j = j + 1;
            }
            i = i + 1;
        }
        Some(Snapshot { entries: records })
    }

    /// How many records the snapshot carries.
    pub fn len(&self) -> (n: usize)
        ensures
            n == self.entries().len(),
    {
        self.entries.len()
    }

    /// The record at index `i`.
    pub fn get(&self, i: usize) -> (e: ClientRecord)
        requires
            i < self.entries().len(),
        ensures
            e == self.entries()[i as int],
    {
        self.entries[i]
    }

    /// Whether the snapshot carries a record for `id`.
    pub fn contains(&self, id: u128) -> (r: bool)
        ensures
            r == contains_id(self.entries(), id),
    {
        let n = self.entries.len();
        let mut i: usize = 0;
        while i < n
            invariant
                n == self.entries@.len(),
                i <= n,
                forall|k: int| 0 <= k < i ==> self.entries@[k].id != id,
            decreases n - i,
        {
            if self.entries[i].id == id {
                return true;
            }
            i = i + 1;
        }
        false
    }

    /// The position the snapshot carries for `id`, if any.
    pub fn find(&self, id: u128) -> (r: Option<Position>)
        ensures
            r == lookup(self.entries(), id),
    {
        let n = self.entries.len();
        let mut i: usize = 0;
        while i < n
            invariant
                n == self.entries@.len(),
                i <= n,
                forall|k: int| 0 <= k < i ==> self.entries@[k].id != id,
            decreases n - i,
        {
            if self.entries[i].id == id {
                proof {
                    crate::model::lemma_lookup_at(self.entries@, id, i as int);
                }
                return Some(self.entries[i].pos);
            }
            i = i + 1;
        }
        proof {
            crate::model::lemma_lookup_some_iff_contains(self.entries@, id);
        }
        None
    }

    /// All records, for the rendering layer or the wire encoder to walk.
    pub fn records(&self) -> (r: &Vec<ClientRecord>)
        ensures
            r@ == self.entries(),
    {
        &self.entries
    }
}

} // verus!
