//! The protocol's global guarantees, proved over the model.
//!
//! Each law here is stated against the same pure functions the
//! executable modules' contracts use, so what the registry, handler and
//! reconciler promise composes into these end-to-end properties.

use vstd::prelude::*;

use crate::model::all_updates;
use crate::model::contains_id;
use crate::model::distinct_ids;
use crate::model::fresh_part;
use crate::model::kept_part;
use crate::model::lemma_destroys_elements;
use crate::model::lemma_destroys_none;
use crate::model::lemma_fresh_part_contains;
use crate::model::lemma_fresh_part_elements;
use crate::model::lemma_fresh_part_none;
use crate::model::lemma_kept_part_all;
use crate::model::lemma_kept_part_contains;
use crate::model::lemma_lookup_distinct;
use crate::model::lemma_lookup_some_iff_contains;
use crate::model::lemma_remove_id_absent;
use crate::model::lemma_remove_is_exclusion;
use crate::model::lemma_snapshot_of_contains;
use crate::model::lemma_snapshot_of_distinct;
use crate::model::lemma_snapshot_of_update;
use crate::model::lemma_update_pos_lookup;
use crate::model::lookup;
use crate::model::op_id;
use crate::model::overwrite_from;
use crate::model::pos_in;
use crate::model::reconcile_ops;
use crate::model::reconciled;
use crate::model::remove_id;
use crate::model::snapshot_of;
use crate::model::update_pos;
use crate::model::upserts;
use crate::model::visible_to;
use crate::types::ClientRecord;
use crate::types::Position;
use crate::types::ReconcileOp;

verus! {

/// Uniqueness: across any run of the registry, the identifiers that the
/// `register` calls return are pairwise distinct.
///
/// `issued` are the registry's issued-identifier sets observed around the
/// register calls: `issued[i]` before the `i`-th call, `issued[i + 1]`
/// after it (other operations may run in between — they never shrink the
/// set). The two premises are exactly what `Registry::register` ensures:
/// the returned identifier was not yet issued, and is issued afterwards.
pub proof fn lemma_registered_ids_distinct(issued: Seq<Set<u128>>, ids: Seq<u128>)
    requires
        issued.len() == ids.len() + 1,
        forall|i: int| 0 <= i < ids.len() ==> !issued[i].contains(#[trigger] ids[i]),
        forall|i: int|
            0 <= i < ids.len() ==> (#[trigger] issued[i].insert(ids[i])).subset_of(issued[i + 1]),
    ensures
        forall|i: int, j: int| 0 <= i < j < ids.len() ==> ids[i] != ids[j],
{
    assert forall|i: int, j: int| 0 <= i < j < ids.len() implies ids[i] != ids[j] by {
        lemma_issued_chain(issued, ids, i + 1, j);
        assert(issued[i].insert(ids[i]).contains(ids[i]));
        assert(issued[i + 1].contains(ids[i]));
        assert(issued[j].contains(ids[i]));
    }
}

/// The issued-identifier set only grows from one observation to a later
/// one.
proof fn lemma_issued_chain(issued: Seq<Set<u128>>, ids: Seq<u128>, a: int, b: int)
    requires
        issued.len() == ids.len() + 1,
        forall|i: int|
            0 <= i < ids.len() ==> (#[trigger] issued[i].insert(ids[i])).subset_of(issued[i + 1]),
        0 <= a <= b <= ids.len(),
    ensures
        issued[a].subset_of(issued[b]),
    decreases b - a,
{
    if a == b {
    } else {
        lemma_issued_chain(issued, ids, a, b - 1);
        assert(issued[b - 1].insert(ids[b - 1]).subset_of(issued[b]));
        assert forall|x: u128| issued[a].contains(x) implies issued[b].contains(x) by {
            assert(issued[b - 1].contains(x));
            assert(issued[b - 1].insert(ids[b - 1]).contains(x));
        }
    }
}

/// Self-exclusion: a snapshot computed excluding client `c` never
/// contains `c`'s own record, however many other clients are registered.
pub proof fn lemma_snapshot_excludes_requester(s: Seq<ClientRecord>, c: u128)
    ensures
        !contains_id(snapshot_of(s, Some(c)), c),
{
    lemma_snapshot_of_contains(s, Some(c), c);
}

/// A snapshot that excludes nobody is the registry's records, exactly
/// and in order.
pub proof fn lemma_snapshot_complete(s: Seq<ClientRecord>)
    ensures
        snapshot_of(s, None) == s,
    decreases s.len(),
{
    reveal(Seq::filter);
    if s.len() == 0 {
        assert(snapshot_of(s, None) =~= s);
    } else {
        lemma_snapshot_complete(s.drop_last());
        assert(s.drop_last().push(s.last()) =~= s);
    }
}

/// A snapshot computed excluding `c` is faithful to every other client:
/// whatever the registry records for an identifier other than `c`, the
/// snapshot records too.
pub proof fn lemma_snapshot_faithful(s: Seq<ClientRecord>, c: u128, x: u128)
    requires
        distinct_ids(s),
        x != c,
    ensures
        lookup(snapshot_of(s, Some(c)), x) == lookup(s, x),
{
    broadcast use vstd::seq_lib::group_filter_ensures;

    let snap = snapshot_of(s, Some(c));
    lemma_snapshot_of_contains(s, Some(c), x);
    lemma_snapshot_of_distinct(s, Some(c));
    if contains_id(s, x) {
        let k = choose|k: int| 0 <= k < s.len() && s[k].id == x;
        lemma_lookup_distinct(s, k);
        assert(visible_to(s[k], Some(c)));
        assert(snap.contains(s[k]));
        let j = choose|j: int| 0 <= j < snap.len() && snap[j] == s[k];
        lemma_lookup_distinct(snap, j);
    } else {
        lemma_lookup_some_iff_contains(s, x);
        lemma_lookup_some_iff_contains(snap, x);
    }
}

/// Read-after-write: once a client's position report is applied, its own
/// record reads back as the reported position, and the snapshot it then
/// receives — computed excluding itself — shows every other client
/// exactly as the registry holds them: the write disturbs nobody else.
pub proof fn lemma_read_after_write(s: Seq<ClientRecord>, id: u128, p: Position)
    requires
        distinct_ids(s),
        contains_id(s, id),
    ensures
        lookup(update_pos(s, id, p), id) == Some(p),
        snapshot_of(update_pos(s, id, p), Some(id)) == snapshot_of(s, Some(id)),
{
    lemma_update_pos_lookup(s, id, p);
    lemma_snapshot_of_update(s, id, p);
}

/// Removal idempotence: removing the same identifier twice leaves
/// exactly the state one removal leaves — the second is a harmless
/// no-op.
pub proof fn lemma_remove_idempotent(s: Seq<ClientRecord>, id: u128)
    ensures
        remove_id(remove_id(s, id), id) == remove_id(s, id),
{
    lemma_remove_is_exclusion(s, id);
    lemma_snapshot_of_contains(s, Some(id), id);
    lemma_remove_id_absent(remove_id(s, id), id);
}

/// Reconciler idempotence: applying the same snapshot twice in a row
/// leaves the entity set of the first application untouched, and the
/// second application emits no create and no destroy — only in-place
/// updates, one per snapshot entry.
pub proof fn lemma_reconcile_idempotent(ents: Seq<ClientRecord>, snap: Seq<ClientRecord>)
    requires
        distinct_ids(ents),
        distinct_ids(snap),
    ensures
        reconciled(reconciled(ents, snap), snap) == reconciled(ents, snap),
        reconcile_ops(reconciled(ents, snap), snap) == all_updates(snap),
{
    broadcast use vstd::seq_lib::group_filter_ensures;

    let kp = kept_part(ents, snap);
    let ow = overwrite_from(kp, snap, snap);
    let fp = fresh_part(ents, snap);
    let r1 = reconciled(ents, snap);
    assert(r1 == ow + fp);
    lemma_fresh_part_elements(ents, snap);

    // Every reconciled entity carries an identifier the snapshot
    // contains, at the snapshot's position.
    assert forall|t: int| 0 <= t < r1.len() implies contains_id(snap, #[trigger] r1[t].id)
        && lookup(snap, r1[t].id) == Some(r1[t].pos) by {
        if t < kp.len() {
            assert(r1[t] == ow[t]);
            assert(contains_id(snap, kp[t].id));
            lemma_lookup_some_iff_contains(snap, kp[t].id);
            assert(ow[t] == ClientRecord { id: kp[t].id, pos: pos_in(snap, kp[t].id) });
        } else {
            let u = t - kp.len();
            assert(r1[t] == fp[u]);
            assert(snap.contains(fp[u]));
            let w = choose|w: int| 0 <= w < snap.len() && snap[w] == fp[u];
            lemma_lookup_distinct(snap, w);
            assert(snap[w].id == r1[t].id);
        }
    }

    // The snapshot's identifiers are all already tracked after the first
    // application.
    assert forall|t: int| 0 <= t < snap.len() implies contains_id(
        r1,
        #[trigger] snap[t].id,
    ) by {
        lemma_kept_part_contains(ents, snap, snap[t].id);
        lemma_fresh_part_contains(ents, snap, snap[t].id);
        assert(contains_id(snap, snap[t].id));
        if contains_id(ents, snap[t].id) {
            let w = choose|w: int| 0 <= w < kp.len() && kp[w].id == snap[t].id;
            assert(ow[w].id == snap[t].id);
            assert(r1[w].id == snap[t].id);
        } else {
            let w = choose|w: int| 0 <= w < fp.len() && fp[w].id == snap[t].id;
            assert(r1[kp.len() + w].id == snap[t].id);
        }
    }

    // Second application: everything is kept, nothing is fresh, every
    // overwrite rewrites the position already held.
    lemma_kept_part_all(r1, snap);
    lemma_fresh_part_none(r1, snap);
    assert forall|t: int| 0 <= t < r1.len() implies overwrite_from(r1, snap, snap)[t]
        == r1[t] by {
        assert(contains_id(snap, r1[t].id));
    }
    assert(overwrite_from(r1, snap, snap) =~= r1);
    assert(reconciled(r1, snap) =~= r1);

    // And the operations are one update per snapshot entry.
    lemma_destroys_none(r1, snap);
    assert forall|t: int| 0 <= t < snap.len() implies upserts(r1, snap)[t] == all_updates(
        snap,
    )[t] by {
        assert(contains_id(r1, snap[t].id));
    }
    assert(upserts(r1, snap) =~= all_updates(snap));
    assert(reconcile_ops(r1, snap) =~= all_updates(snap));
}

/// Reconciler minimality: only membership changes drive create and
/// destroy. Every destroy concerns an identifier that was tracked and
/// left the snapshot; every create one that was absent and entered it;
/// every update one that stayed, at the snapshot's position. In
/// particular no identifier is both destroyed and created or updated by
/// one application — an entity present in two consecutive snapshots is
/// never destroyed and recreated.
pub proof fn lemma_reconcile_minimal(ents: Seq<ClientRecord>, snap: Seq<ClientRecord>)
    requires
        distinct_ids(snap),
    ensures
        forall|k: int|
            0 <= k < reconcile_ops(ents, snap).len() ==> match #[trigger] reconcile_ops(
                ents,
                snap,
            )[k] {
                ReconcileOp::Destroy { id } => contains_id(ents, id) && !contains_id(snap, id),
                ReconcileOp::Update { id, pos } => contains_id(ents, id) && lookup(snap, id)
                    == Some(pos),
                ReconcileOp::Create { id, pos } => !contains_id(ents, id) && lookup(snap, id)
                    == Some(pos),
            },
        forall|k1: int, k2: int|
            0 <= k1 < reconcile_ops(ents, snap).len() && 0 <= k2 < reconcile_ops(ents, snap).len()
                && (#[trigger] reconcile_ops(ents, snap)[k1]) is Destroy && !((
            #[trigger] reconcile_ops(ents, snap)[k2]) is Destroy) ==> op_id(
                reconcile_ops(ents, snap)[k1],
            ) != op_id(reconcile_ops(ents, snap)[k2]),
{
    let ops = reconcile_ops(ents, snap);
    let ds = crate::model::destroys(ents, snap);
    let us = upserts(ents, snap);
    lemma_destroys_elements(ents, snap);
    assert forall|k: int| 0 <= k < ops.len() implies match #[trigger] ops[k] {
        ReconcileOp::Destroy { id } => contains_id(ents, id) && !contains_id(snap, id),
        ReconcileOp::Update { id, pos } => contains_id(ents, id) && lookup(snap, id) == Some(pos),
        ReconcileOp::Create { id, pos } => !contains_id(ents, id) && lookup(snap, id) == Some(
            pos,
        ),
    } by {
        if k < ds.len() {
            assert(ops[k] == ds[k]);
        } else {
            let t = k - ds.len();
            assert(ops[k] == us[t]);
            assert(snap[t].id == snap[t].id);
            lemma_lookup_distinct(snap, t);
        }
    }
    assert forall|k1: int, k2: int|
        0 <= k1 < ops.len() && 0 <= k2 < ops.len() && (#[trigger] ops[k1]) is Destroy && !((
        #[trigger] ops[k2]) is Destroy) implies op_id(ops[k1]) != op_id(ops[k2]) by {
        assert(!contains_id(snap, op_id(ops[k1])));
        lemma_lookup_some_iff_contains(snap, op_id(ops[k2]));
    }
}

} // verus!
