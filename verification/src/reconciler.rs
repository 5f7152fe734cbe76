//! The client-side reconciler.
//!
//! It owns the local map of remote entities — one per other connected
//! client, keyed by identifier — and turns each received snapshot into
//! the minimal set of create/update/destroy operations: membership
//! changes drive create and destroy, position changes drive update in
//! place. Each snapshot is processed to completion before the next; the
//! reconciler introduces no concurrency of its own.

use vstd::prelude::*;

use crate::model::contains_id;
use crate::model::destroys;
use crate::model::distinct_ids;
use crate::model::fresh_part;
use crate::model::kept_part;
use crate::model::lemma_diff_step;
use crate::model::lemma_fresh_part_congruent;
use crate::model::lemma_fresh_part_contains;
use crate::model::lemma_kept_part_contains;
use crate::model::lemma_kept_part_distinct;
use crate::model::lemma_lookup_at;
use crate::model::lemma_lookup_some_iff_contains;
use crate::model::lemma_overwrite_step_hit;
use crate::model::lemma_overwrite_step_miss;
use crate::model::lemma_upsert_step;
use crate::model::lookup;
use crate::model::overwrite_from;
use crate::model::reconcile_ops;
use crate::model::reconciled;
use crate::model::upserts;
use crate::records::find_index;
use crate::snapshot::Snapshot;
use crate::types::ClientRecord;
use crate::types::Position;
use crate::types::ReconcileOp;

verus! {

/// The client-side mirror of the other connected clients: a map from
/// identifier to the remote entity's last-applied position, fed by
/// received snapshots.
pub struct Reconciler {
    entities: Vec<ClientRecord>,
}

impl Reconciler {
    /// The tracked remote entities, in the order they were created.
    pub closed spec fn entities(self) -> Seq<ClientRecord> {
        self.entities@
    }

    #[verifier::type_invariant]
    spec fn inv(self) -> bool {
        distinct_ids(self.entities@)
    }

    /// A reconciler tracking nothing yet.
    pub fn new() -> (r: Reconciler)
        ensures
            r.entities() == Seq::<ClientRecord>::empty(),
    {
        Reconciler { entities: Vec::new() }
    }

    /// Applies one received snapshot and returns the operations the
    /// rendering layer must perform, in order: first one destroy per
    /// entity the snapshot no longer contains, then — walking the
    /// snapshot — an in-place update per already-tracked identifier and a
    /// create per new one.
    ///
    /// Afterwards the tracked entities are exactly the snapshot's
    /// records: survivors keep their slot (and thus any externally
    /// attached identity) with the snapshot's position, new entities sit
    /// behind them in snapshot order.
    pub fn apply(&mut self, snap: &Snapshot) -> (ops: Vec<ReconcileOp>)
        ensures
            final(self).entities() == reconciled(old(self).entities(), snap.entries()),
            ops@ == reconcile_ops(old(self).entities(), snap.entries()),
    {
        proof {
            use_type_invariant(&*self);
            use_type_invariant(snap);
        }
        let ghost ents0 = self.entities@;
        let ghost snap_s = snap.entries();

        let mut ents: Vec<ClientRecord> = Vec::new();
        std::mem::swap(&mut self.entities, &mut ents);

        let mut ops: Vec<ReconcileOp> = Vec::new();
        let mut kept: Vec<ClientRecord> = Vec::new();

        // Membership diff: destroy what the snapshot no longer contains.
        let n = ents.len();
        let mut i: usize = 0;
        while i < n
            invariant
                n == ents@.len(),
                ents@ == ents0,
                snap_s == snap.entries(),
                i <= n,
                kept@ == kept_part(ents0.take(i as int), snap_s),
                ops@ == destroys(ents0.take(i as int), snap_s),
            decreases n - i,
        {
            let e = ents[i];
            if snap.contains(e.id) {
                kept.push(e);
            } else {
                ops.push(ReconcileOp::Destroy { id: e.id });
            }
            proof {
                lemma_diff_step(ents0, snap_s, i as int);
            }
            i = i + 1;
        }
        proof {
            assert(ents0.take(n as int) == ents0) by {
                assert(ents0.take(n as int) =~= ents0);
            }
            lemma_kept_part_distinct(ents0, snap_s);
        }
        let ghost kept0 = kept@;

        // Snapshot walk: update tracked entities in place, create new
        // ones.
        let m = snap.len();
        let mut j: usize = 0;
        while j < m
            invariant
                m == snap.entries().len(),
                snap_s == snap.entries(),
                j <= m,
                distinct_ids(ents0),
                distinct_ids(snap_s),
                distinct_ids(kept0),
                kept0 == kept_part(ents0, snap_s),
                kept@ == overwrite_from(kept0, snap_s.take(j as int), snap_s) + fresh_part(
                    kept0,
                    snap_s.take(j as int),
                ),
                ops@ == destroys(ents0, snap_s) + upserts(ents0, snap_s.take(j as int)),
                distinct_ids(kept@),
            decreases m - j,
        {
            let r = snap.get(j);
            let ghost ow = overwrite_from(kept0, snap_s.take(j as int), snap_s);
            let ghost fp = fresh_part(kept0, snap_s.take(j as int));
            let ghost kept_before = kept@;
            proof {
                assert forall|t: int| 0 <= t < kept0.len() implies #[trigger] ow[t].id
                    == kept0[t].id by {}
            }
            match find_index(&kept, r.id) {
                Some(k) => {
                    proof {
                        if k >= kept0.len() {
                            assert(fp[k - kept0.len()].id == r.id);
                            assert(contains_id(fp, r.id));
                            lemma_fresh_part_contains(kept0, snap_s.take(j as int), r.id);
                            let t = choose|t: int|
                                0 <= t < snap_s.take(j as int).len() && snap_s.take(
                                    j as int,
                                )[t].id == r.id;
                            assert(snap_s[t].id == snap_s[j as int].id);
                        }
                        assert(k < kept0.len());
                        assert(kept0[k as int].id == r.id);
                    }
                    kept[k] = r;
                    ops.push(ReconcileOp::Update { id: r.id, pos: r.pos });
                    proof {
                        lemma_overwrite_step_hit(kept0, snap_s, j as int, k as int);
                        lemma_upsert_step(ents0, snap_s, j as int);
                        assert(contains_id(kept0, r.id)) by {
                            assert(kept0[k as int].id == r.id);
                        }
                        lemma_kept_part_contains(ents0, snap_s, r.id);
                        assert(r == ClientRecord { id: snap_s[j as int].id, pos: snap_s[j as int].pos });
                        assert(kept@ == ow.update(k as int, r) + fp) by {
                            assert(kept@ =~= ow.update(k as int, r) + fp);
                        }
                        assert(distinct_ids(kept@)) by {
                            assert forall|a: int, b: int|
                                0 <= a < b < kept@.len() implies kept@[a].id != kept@[b].id by {
                                assert(kept@[a].id == kept_before[a].id);
                                assert(kept@[b].id == kept_before[b].id);
                            }
                        }
                    }
                },
                None => {
                    proof {
                        assert(!contains_id(kept0, r.id)) by {
                            if contains_id(kept0, r.id) {
                                let t = choose|t: int|
                                    0 <= t < kept0.len() && kept0[t].id == r.id;
                                assert(kept_before[t].id == r.id);
                            }
                        }
                        lemma_kept_part_contains(ents0, snap_s, r.id);
                        assert(contains_id(snap_s, r.id)) by {
                            assert(snap_s[j as int].id == r.id);
                        }
                        assert(!contains_id(ents0, r.id));
                    }
                    kept.push(r);
                    ops.push(ReconcileOp::Create { id: r.id, pos: r.pos });
                    proof {
                        lemma_overwrite_step_miss(kept0, snap_s, j as int);
                        lemma_upsert_step(ents0, snap_s, j as int);
                        assert(r == ClientRecord { id: snap_s[j as int].id, pos: snap_s[j as int].pos });
                        assert(kept@ == ow + fp.push(r)) by {
                            assert(kept@ =~= ow + fp.push(r));
                        }
                        assert(distinct_ids(kept@)) by {
                            assert forall|a: int, b: int|
                                0 <= a < b < kept@.len() implies kept@[a].id != kept@[b].id by {
                                if b < kept@.len() - 1 {
                                    assert(kept@[a].id == kept_before[a].id);
                                    assert(kept@[b].id == kept_before[b].id);
                                } else {
                                    assert(kept@[a] == kept_before[a]);
                                    assert(!contains_id(kept_before, r.id));
                                }
                            }
                        }
                    }
                },
            }
            j = j + 1;
        }
        proof {
            assert(snap_s.take(m as int) == snap_s) by {
                assert(snap_s.take(m as int) =~= snap_s);
            }
            assert forall|t: int| 0 <= t < snap_s.len() implies contains_id(
                kept0,
                #[trigger] snap_s[t].id,
            ) == contains_id(ents0, snap_s[t].id) by {
                lemma_kept_part_contains(ents0, snap_s, snap_s[t].id);
                assert(contains_id(snap_s, snap_s[t].id));
            }
            lemma_fresh_part_congruent(kept0, ents0, snap_s);
        }
        self.entities = kept;
        ops
    }

    /// The tracked remote entities, for the rendering layer to read and
    /// visualize after each application.
    pub fn current(&self) -> (r: &Vec<ClientRecord>)
        ensures
            r@ == self.entities(),
    {
        &self.entities
    }

    /// The position last applied for `id`, if `id` is tracked.
    pub fn find(&self, id: u128) -> (r: Option<Position>)
        ensures
            r == lookup(self.entities(), id),
    {
        match find_index(&self.entities, id) {
            Some(k) => {
                proof {
                    lemma_lookup_at(self.entities@, id, k as int);
                }
                Some(self.entities[k].pos)
            },
            None => {
                proof {
                    lemma_lookup_some_iff_contains(self.entities@, id);
                }
                None
            },
        }
    }

    /// How many remote entities are currently tracked.
    pub fn len(&self) -> (n: usize)
        ensures
            n == self.entities().len(),
    {
        self.entities.len()
    }
}

} // verus!
