//! The server-side connection registry.
//!
//! One registry is shared (behind the caller's mutual exclusion) by every
//! connection handler for the lifetime of the server. It maps each
//! currently connected client's identifier to its last-known position,
//! and remembers every identifier it ever handed out so that none is
//! issued twice.

use vstd::prelude::*;
use vstd::assert_by_contradiction;

use crate::model::contains_id;
use crate::model::distinct_ids;
use crate::model::lemma_lookup_at;
use crate::model::lemma_lookup_some_iff_contains;
use crate::model::lemma_push_to_set;
use crate::model::lemma_remove_is_exclusion;
use crate::model::lemma_snapshot_of_distinct;
use crate::model::lemma_update_pos_absent;
use crate::model::lemma_update_pos_at;
use crate::model::lookup;
use crate::model::remove_id;
use crate::model::snapshot_of;
use crate::model::update_pos;
use crate::model::visible_to;
use crate::records::contains_record;
use crate::records::contains_value;
use crate::records::find_index;
use crate::snapshot::Snapshot;
use crate::types::ClientRecord;
use crate::types::Position;
use crate::types::origin;

verus! {

/// Relies on `uuid::Uuid::new_v4`: one freshly drawn random 128-bit
/// identifier (RFC 4122 version 4), returned as its integral value.
/// Nothing is assumed of the draw — the registry itself checks freshness
/// against everything it ever issued.
#[verifier::external_body]
fn random_id() -> u128 {
    uuid::Uuid::new_v4().as_u128()
}

/// Among the identifiers `0 ..= issued.len() + recs.len()` at least one
/// occurs in neither pool: there is one candidate more than both pools
/// together can hold.
proof fn lemma_free_candidate_exists(issued: Seq<u128>, recs: Seq<ClientRecord>, bound: u128)
    requires
        bound == issued.len() + recs.len(),
    ensures
        exists|k: u128| k <= bound && !issued.contains(k) && !contains_id(recs, k),
{
    broadcast use vstd::set::group_set_axioms;
    broadcast use vstd::seq_lib::seq_to_set_is_finite;

    assert_by_contradiction!(exists|k: u128|
        k <= bound && !issued.contains(k) && !contains_id(recs, k), {
        let cand = Seq::<u128>::new((bound + 1) as nat, |j: int| j as u128);
        assert forall|a: int, b: int|
            0 <= a < cand.len() && 0 <= b < cand.len() && a != b implies cand[a] != cand[b] by {
            assert(cand[a] == a as u128);
            assert(cand[b] == b as u128);
        }
        assert(cand.no_duplicates());
        cand.unique_seq_to_set();

        let ids = recs.map_values(|e: ClientRecord| e.id);
        issued.lemma_cardinality_of_set();
        ids.lemma_cardinality_of_set();
        let pool = issued.to_set().union(ids.to_set());
        vstd::set_lib::lemma_len_union(issued.to_set(), ids.to_set());

        assert forall|x: u128| #[trigger] cand.to_set().contains(x) implies pool.contains(x) by {
            let j = choose|j: int| 0 <= j < cand.len() && cand[j] == x;
            assert(x == j as u128);
            assert(x <= bound);
            assert(issued.contains(x) || contains_id(recs, x));
            if contains_id(recs, x) {
                let i = choose|i: int| 0 <= i < recs.len() && recs[i].id == x;
                assert(ids[i] == x);
                assert(ids.contains(x));
            }
        }
        assert(cand.to_set().subset_of(pool));
        vstd::set_lib::lemma_len_subset(cand.to_set(), pool);
    });
}

/// An identifier that occurs neither among the issued ones nor among the
/// current records. The random draw is taken when it is free; the
/// deterministic scan behind it only guards the (practically unreachable)
/// case of a collision, so that the search provably terminates.
fn fresh_candidate(issued: &Vec<u128>, clients: &Vec<ClientRecord>) -> (id: u128)
    ensures
        !issued@.contains(id),
        !contains_id(clients@, id),
{
    let id = random_id();
    if !contains_value(issued, id) && !contains_record(clients, id) {
        return id;
    }
    let bound: u128 = issued.len() as u128 + clients.len() as u128;
    let mut j: u128 = 0;
    while j <= bound
        invariant
            bound == issued@.len() + clients@.len(),
            bound < u128::MAX,
            j <= bound + 1,
            forall|k: u128| k < j ==> issued@.contains(k) || contains_id(clients@, k),
        decreases bound + 1 - j,
    {
        if !contains_value(issued, j) && !contains_record(clients, j) {
            return j;
        }
        j = j + 1;
    }
    proof {
        lemma_free_candidate_exists(issued@, clients@, bound);
        let k = choose|k: u128|
            k <= bound && !issued@.contains(k) && !contains_id(clients@, k);
        assert(issued@.contains(k) || contains_id(clients@, k));
    }
    0
}

/// The single piece of shared mutable state of the whole protocol: the
/// map from connected client to last-known position.
///
/// Presence in [`Registry::records`] is equivalent to "connection
/// currently open"; each identifier appears at most once and, once
/// issued, is never issued again, even after its connection closes.
pub struct Registry {
    clients: Vec<ClientRecord>,
    issued: Vec<u128>,
}

impl Registry {
    /// The records of the currently connected clients, in registration
    /// order.
    pub closed spec fn records(self) -> Seq<ClientRecord> {
        self.clients@
    }

    /// Every identifier this registry ever handed out, including those of
    /// connections that have since closed.
    pub closed spec fn issued_ids(self) -> Set<u128> {
        self.issued@.to_set()
    }

    #[verifier::type_invariant]
    spec fn inv(self) -> bool {
        distinct_ids(self.clients@)
    }

    /// A registry with no connections and no identifier issued yet.
    pub fn new() -> (r: Registry)
        ensures
            r.records() == Seq::<ClientRecord>::empty(),
            r.issued_ids() == Set::<u128>::empty(),
    {
        let r = Registry { clients: Vec::new(), issued: Vec::new() };
        proof {
            assert(r.issued@.to_set() =~= Set::<u128>::empty());
        }
        r
    }

    /// Accepts a new connection: generates a fresh identifier — one never
    /// issued before — and records the client at the default position.
    /// Never fails.
    pub fn register(&mut self) -> (id: u128)
        ensures
            !old(self).issued_ids().contains(id),
            !contains_id(old(self).records(), id),
            final(self).issued_ids() == old(self).issued_ids().insert(id),
            final(self).records() == old(self).records().push(
                ClientRecord { id: id, pos: origin() },
            ),
    {
        proof {
            use_type_invariant(&*self);
        }
        let id = fresh_candidate(&self.issued, &self.clients);
        let mut issued: Vec<u128> = Vec::new();
        std::mem::swap(&mut self.issued, &mut issued);
        issued.push(id);
        self.issued = issued;
        let mut clients: Vec<ClientRecord> = Vec::new();
        std::mem::swap(&mut self.clients, &mut clients);
        clients.push(ClientRecord { id: id, pos: Position::start() });
        proof {
            let t = old(self).clients@.push(ClientRecord { id: id, pos: origin() });
            assert forall|a: int, b: int| 0 <= a < b < t.len() implies t[a].id != t[b].id by {
                if b < t.len() - 1 {
                    assert(old(self).clients@[a].id != old(self).clients@[b].id);
                } else {
                    assert(t[a] == old(self).clients@[a]);
                }
            }
        }
        self.clients = clients;
        proof {
            lemma_push_to_set(old(self).issued@, id);
        }
        id
    }

    /// Overwrites the position recorded for `id` with `p`. A no-op — not
    /// an error — when `id` is not registered.
    pub fn update_position(&mut self, id: u128, p: Position)
        ensures
            final(self).records() == update_pos(old(self).records(), id, p),
            final(self).issued_ids() == old(self).issued_ids(),
    {
        proof {
            use_type_invariant(&*self);
        }
        match find_index(&self.clients, id) {
            Some(k) => {
                let mut clients: Vec<ClientRecord> = Vec::new();
                std::mem::swap(&mut self.clients, &mut clients);
                clients[k] = ClientRecord { id: id, pos: p };
                self.clients = clients;
                proof {
                    lemma_update_pos_at(old(self).clients@, id, p, k as int);
                    assert forall|a: int, b: int|
                        0 <= a < b < self.clients@.len() implies self.clients@[a].id
                        != self.clients@[b].id by {
                        assert(self.clients@[a].id == old(self).clients@[a].id);
                        assert(self.clients@[b].id == old(self).clients@[b].id);
                    }
                }
            },
            None => {
                proof {
                    lemma_update_pos_absent(self.clients@, id, p);
                }
            },
        }
    }

    /// A consistent point-in-time copy of every record, omitting the one
    /// for the excluded identifier (the requester), if present.
    pub fn snapshot(&self, excluding: Option<u128>) -> (snap: Snapshot)
        ensures
            snap.entries() == snapshot_of(self.records(), excluding),
    {
        proof {
            use_type_invariant(&*self);
        }
        let n = self.clients.len();
        let mut entries: Vec<ClientRecord> = Vec::new();
        let mut i: usize = 0;
        while i < n
            invariant
                n == self.clients@.len(),
                i <= n,
                entries@ == snapshot_of(self.clients@.take(i as int), excluding),
            decreases n - i,
        {
            let e = self.clients[i];
            let keep = match excluding {
                Some(c) => e.id != c,
                None => true,
            };
            if keep {
                entries.push(e);
            }
            proof {
                reveal(Seq::filter);
                let pre = self.clients@.take(i as int);
                let post = self.clients@.take(i as int + 1);
                assert(post.drop_last() == pre) by {
                    assert(post.drop_last() =~= pre);
                }
                assert(post.last() == e);
                assert(keep == visible_to(e, excluding));
                assert(snapshot_of(post, excluding) == if visible_to(e, excluding) {
                    snapshot_of(pre, excluding).push(e)
                } else {
                    snapshot_of(pre, excluding)
                });
            }
            i = i + 1;
        }
        proof {
            assert(self.clients@.take(n as int) == self.clients@) by {
                assert(self.clients@.take(n as int) =~= self.clients@);
            }
            lemma_snapshot_of_distinct(self.clients@, excluding);
        }
        Snapshot::from_distinct(entries)
    }

    /// Closes a connection: deletes the record for `id`. A no-op — not an
    /// error — when `id` is absent, so removing twice is harmless.
    pub fn remove(&mut self, id: u128)
        ensures
            final(self).records() == remove_id(old(self).records(), id),
            final(self).issued_ids() == old(self).issued_ids(),
    {
        proof {
            use_type_invariant(&*self);
        }
        let n = self.clients.len();
        let mut kept: Vec<ClientRecord> = Vec::new();
        let mut i: usize = 0;
        while i < n
            invariant
                n == self.clients@.len(),
                i <= n,
                kept@ == remove_id(self.clients@.take(i as int), id),
            decreases n - i,
        {
            let e = self.clients[i];
            if e.id != id {
                kept.push(e);
            }
            proof {
                reveal(Seq::filter);
                let pre = self.clients@.take(i as int);
                let post = self.clients@.take(i as int + 1);
                assert(post.drop_last() == pre) by {
                    assert(post.drop_last() =~= pre);
                }
                assert(post.last() == e);
                assert(remove_id(post, id) == if e.id != id {
                    remove_id(pre, id).push(e)
                } else {
                    remove_id(pre, id)
                });
            }
            i = i + 1;
        }
        proof {
            assert(self.clients@.take(n as int) == self.clients@) by {
                assert(self.clients@.take(n as int) =~= self.clients@);
            }
            lemma_remove_is_exclusion(self.clients@, id);
            lemma_snapshot_of_distinct(self.clients@, Some(id));
        }
        self.clients = kept;
    }

    /// The position recorded for `id`, if `id` is registered: the test
    /// hook for a client's read of its own record.
    pub fn get(&self, id: u128) -> (r: Option<Position>)
        ensures
            r == lookup(self.records(), id),
    {
        match find_index(&self.clients, id) {
            Some(k) => {
                proof {
                    lemma_lookup_at(self.clients@, id, k as int);
                }
                Some(self.clients[k].pos)
            },
            None => {
                proof {
                    lemma_lookup_some_iff_contains(self.clients@, id);
                }
                None
            },
        }
    }

    /// Whether `id` is currently registered.
    pub fn is_registered(&self, id: u128) -> (r: bool)
        ensures
            r == contains_id(self.records(), id),
    {
        contains_record(&self.clients, id)
    }

    /// How many clients are currently registered.
    pub fn len(&self) -> (n: usize)
        ensures
            n == self.records().len(),
    {
        self.clients.len()
    }
}

} // verus!
