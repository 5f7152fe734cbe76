//! The mathematical model of the protocol.
//!
//! Server and client state are both modelled as a sequence of
//! [`ClientRecord`]s whose identifiers are pairwise distinct. The pure
//! functions here say what each operation of the registry, the handler and
//! the reconciler does to that sequence; the executable modules promise in
//! their `ensures` clauses to agree with these functions exactly.

use vstd::prelude::*;

use crate::types::ClientRecord;
use crate::types::Position;
use crate::types::ReconcileOp;
use crate::types::origin;

verus! {

/// Whether some record in `s` carries identifier `id`.
pub open spec fn contains_id(s: Seq<ClientRecord>, id: u128) -> bool {
    exists|i: int| 0 <= i < s.len() && s[i].id == id
}

/// Each identifier appears in at most one record of `s`.
pub open spec fn distinct_ids(s: Seq<ClientRecord>) -> bool {
    forall|i: int, j: int| 0 <= i < j < s.len() ==> s[i].id != s[j].id
}

/// The position recorded for `id`: the first (with [`distinct_ids`], the
/// only) record that carries it, or `None` when no record does.
pub open spec fn lookup(s: Seq<ClientRecord>, id: u128) -> Option<Position>
    decreases s.len(),
{
    if s.len() == 0 {
        None
    } else if s[0].id == id {
        Some(s[0].pos)
    } else {
        lookup(s.drop_first(), id)
    }
}

/// The position recorded for `id`, defaulting to [`origin`] when absent.
/// Only meaningful under a [`contains_id`] guard.
pub open spec fn pos_in(s: Seq<ClientRecord>, id: u128) -> Position {
    match lookup(s, id) {
        Some(p) => p,
        None => origin(),
    }
}

/// The state after overwriting the position recorded for `id` with `p`:
/// every record keeps its place, the one carrying `id` (if any) carries
/// `p` afterwards. When `id` is absent nothing changes.
pub open spec fn update_pos(s: Seq<ClientRecord>, id: u128, p: Position) -> Seq<ClientRecord> {
    s.map_values(
        |e: ClientRecord|
            if e.id == id {
                ClientRecord { id: id, pos: p }
            } else {
                e
            },
    )
}

/// Whether a record carrying `id` belongs in a snapshot that excludes
/// `excluding`.
pub open spec fn id_visible(id: u128, excluding: Option<u128>) -> bool {
    match excluding {
        Some(c) => id != c,
        None => true,
    }
}

/// Whether the record `e` belongs in a snapshot that excludes `excluding`.
pub open spec fn visible_to(e: ClientRecord, excluding: Option<u128>) -> bool {
    id_visible(e.id, excluding)
}

/// The records a snapshot taken of state `s` holds: all of them, in
/// registry order, except the one belonging to the excluded requester.
pub open spec fn snapshot_of(s: Seq<ClientRecord>, excluding: Option<u128>) -> Seq<ClientRecord> {
    s.filter(|e: ClientRecord| visible_to(e, excluding))
}

/// The state after removing the record for `id`; unchanged when `id` is
/// absent.
pub open spec fn remove_id(s: Seq<ClientRecord>, id: u128) -> Seq<ClientRecord> {
    s.filter(|e: ClientRecord| e.id != id)
}

// ------------------------------------------------------------------
// The reconciler's model: what one snapshot application does to the
// client-side entity sequence and which operations it emits.
// ------------------------------------------------------------------

/// The locally tracked entities that survive snapshot `snap`: those whose
/// identifier the snapshot still carries, in their original order.
pub open spec fn kept_part(ents: Seq<ClientRecord>, snap: Seq<ClientRecord>) -> Seq<
    ClientRecord,
> {
    ents.filter(|e: ClientRecord| contains_id(snap, e.id))
}

/// The snapshot entries that were not tracked before: they become freshly
/// created entities, in snapshot order.
pub open spec fn fresh_part(ents: Seq<ClientRecord>, snap: Seq<ClientRecord>) -> Seq<
    ClientRecord,
> {
    snap.filter(|r: ClientRecord| !contains_id(ents, r.id))
}

/// `kept` with the position of every entity whose identifier appears in
/// `marked` overwritten by the position `snap` carries for it. Slots and
/// identifiers are untouched: only positions change.
pub open spec fn overwrite_from(
    kept: Seq<ClientRecord>,
    marked: Seq<ClientRecord>,
    snap: Seq<ClientRecord>,
) -> Seq<ClientRecord> {
    kept.map_values(
        |e: ClientRecord|
            if contains_id(marked, e.id) {
                ClientRecord { id: e.id, pos: pos_in(snap, e.id) }
            } else {
                e
            },
    )
}

/// The client-side state after applying snapshot `snap` to entities
/// `ents`: entities absent from the snapshot are gone, the survivors keep
/// their slots and take the snapshot's positions, and snapshot entries not
/// tracked before are appended in snapshot order.
pub open spec fn reconciled(ents: Seq<ClientRecord>, snap: Seq<ClientRecord>) -> Seq<
    ClientRecord,
> {
    overwrite_from(kept_part(ents, snap), snap, snap) + fresh_part(ents, snap)
}

/// The destroy operations one application emits: one per entity the
/// snapshot no longer contains, in tracked order.
pub open spec fn destroys(ents: Seq<ClientRecord>, snap: Seq<ClientRecord>) -> Seq<
    ReconcileOp,
> {
    ents.filter(|e: ClientRecord| !contains_id(snap, e.id)).map_values(
        |e: ClientRecord| ReconcileOp::Destroy { id: e.id },
    )
}

/// The per-entry operations one application emits: walking the snapshot in
/// order, an update for an identifier already tracked, a create for a new
/// one.
pub open spec fn upserts(ents: Seq<ClientRecord>, snap: Seq<ClientRecord>) -> Seq<
    ReconcileOp,
> {
    snap.map_values(
        |r: ClientRecord|
            if contains_id(ents, r.id) {
                ReconcileOp::Update { id: r.id, pos: r.pos }
            } else {
                ReconcileOp::Create { id: r.id, pos: r.pos }
            },
    )
}

/// Everything one application emits: destroys first, then the per-entry
/// operations in snapshot order.
pub open spec fn reconcile_ops(ents: Seq<ClientRecord>, snap: Seq<ClientRecord>) -> Seq<
    ReconcileOp,
> {
    destroys(ents, snap) + upserts(ents, snap)
}

/// One in-place update per snapshot entry, in snapshot order — all a
/// second application of the same snapshot may emit.
pub open spec fn all_updates(snap: Seq<ClientRecord>) -> Seq<ReconcileOp> {
    snap.map_values(|r: ClientRecord| ReconcileOp::Update { id: r.id, pos: r.pos })
}

/// The identifier an operation concerns.
pub open spec fn op_id(op: ReconcileOp) -> u128 {
    match op {
        ReconcileOp::Create { id, .. } => id,
        ReconcileOp::Update { id, .. } => id,
        ReconcileOp::Destroy { id } => id,
    }
}

// ------------------------------------------------------------------
// Basic facts about the model, used throughout the executable modules'
// proofs.
// ------------------------------------------------------------------

/// Membership of an identifier in a sequence extended by one record.
pub proof fn lemma_contains_id_push(s: Seq<ClientRecord>, x: ClientRecord, id: u128)
    ensures
        contains_id(s.push(x), id) == (contains_id(s, id) || x.id == id),
{
    let t = s.push(x);
    if contains_id(s, id) {
        let i = choose|i: int| 0 <= i < s.len() && s[i].id == id;
        assert(t[i].id == id);
    }
    if x.id == id {
        assert(t[s.len() as int].id == id);
    }
    if contains_id(t, id) {
        let i = choose|i: int| 0 <= i < t.len() && t[i].id == id;
        if i < s.len() {
            assert(s[i].id == id);
        }
    }
}

/// `lookup` finds a record exactly when some record carries the
/// identifier.
pub proof fn lemma_lookup_some_iff_contains(s: Seq<ClientRecord>, id: u128)
    ensures
        lookup(s, id) is Some <==> contains_id(s, id),
    decreases s.len(),
{
    if s.len() == 0 {
    } else if s[0].id == id {
    } else {
        lemma_lookup_some_iff_contains(s.drop_first(), id);
        assert forall|i: int| 0 <= i < s.len() && s[i].id == id implies contains_id(
            s.drop_first(),
            id,
        ) by {
            assert(i != 0);
            assert(s.drop_first()[i - 1].id == id);
        }
        if contains_id(s.drop_first(), id) {
            let i = choose|i: int| 0 <= i < s.drop_first().len() && s.drop_first()[i].id == id;
            assert(s[i + 1].id == id);
        }
    }
}

/// `lookup` returns the first matching record's position.
pub proof fn lemma_lookup_at(s: Seq<ClientRecord>, id: u128, k: int)
    requires
        0 <= k < s.len(),
        s[k].id == id,
        forall|m: int| 0 <= m < k ==> s[m].id != id,
    ensures
        lookup(s, id) == Some(s[k].pos),
    decreases k,
{
    if k == 0 {
    } else {
        assert(s[0].id != id);
        lemma_lookup_at(s.drop_first(), id, k - 1);
    }
}

/// In a sequence with distinct identifiers, `lookup` returns the position
/// of the (unique) record at any matching index.
pub proof fn lemma_lookup_distinct(s: Seq<ClientRecord>, k: int)
    requires
        distinct_ids(s),
        0 <= k < s.len(),
    ensures
        lookup(s, s[k].id) == Some(s[k].pos),
        pos_in(s, s[k].id) == s[k].pos,
{
    lemma_lookup_at(s, s[k].id, k);
}

/// Turning a sequence extended by one element into a set inserts that
/// element.
pub proof fn lemma_push_to_set<A>(s: Seq<A>, x: A)
    ensures
        s.push(x).to_set() == s.to_set().insert(x),
{
    broadcast use vstd::set::group_set_axioms;

    let t = s.push(x);
    assert forall|y: A| #[trigger] t.contains(y) implies s.contains(y) || y == x by {
        let i = choose|i: int| 0 <= i < t.len() && t[i] == y;
        if i < s.len() {
            assert(s[i] == y);
        }
    }
    assert forall|y: A| #[trigger] s.contains(y) implies t.contains(y) by {
        let i = choose|i: int| 0 <= i < s.len() && s[i] == y;
        assert(t[i] == y);
    }
    assert(t[s.len() as int] == x);
    assert(t.contains(x));
    assert(t.to_set() =~= s.to_set().insert(x));
}

// ------------------------------------------------------------------
// Facts about the registry's operations.
// ------------------------------------------------------------------

/// A snapshot holds exactly the records of the visible identifiers.
pub proof fn lemma_snapshot_of_contains(s: Seq<ClientRecord>, ex: Option<u128>, x: u128)
    ensures
        contains_id(snapshot_of(s, ex), x) <==> (contains_id(s, x) && id_visible(x, ex)),
    decreases s.len(),
{
    reveal(Seq::filter);
    if s.len() == 0 {
    } else {
        let pre = s.drop_last();
        lemma_snapshot_of_contains(pre, ex, x);
        lemma_contains_id_push(pre, s.last(), x);
        assert(pre.push(s.last()) =~= s);
        if visible_to(s.last(), ex) {
            lemma_contains_id_push(snapshot_of(pre, ex), s.last(), x);
        }
    }
}

/// Excluding an identifier keeps the remaining records' identifiers
/// distinct.
pub proof fn lemma_snapshot_of_distinct(s: Seq<ClientRecord>, ex: Option<u128>)
    requires
        distinct_ids(s),
    ensures
        distinct_ids(snapshot_of(s, ex)),
    decreases s.len(),
{
    reveal(Seq::filter);
    if s.len() == 0 {
    } else {
        let pre = s.drop_last();
        assert(distinct_ids(pre)) by {
            assert(forall|i: int| 0 <= i < pre.len() ==> pre[i] == s[i]);
        }
        lemma_snapshot_of_distinct(pre, ex);
        if visible_to(s.last(), ex) {
            let out = snapshot_of(pre, ex).push(s.last());
            assert(!contains_id(pre, s.last().id)) by {
                assert(forall|i: int| 0 <= i < pre.len() ==> #[trigger] s[i].id != s[s.len() - 1].id);
            }
            lemma_snapshot_of_contains(pre, ex, s.last().id);
            assert forall|a: int, b: int| 0 <= a < b < out.len() implies out[a].id != out[b].id by {
                if b < out.len() - 1 {
                    assert(out[a] == snapshot_of(pre, ex)[a]);
                    assert(out[b] == snapshot_of(pre, ex)[b]);
                } else {
                    assert(out[b] == s.last());
                    assert(contains_id(snapshot_of(pre, ex), out[a].id)) by {
                        assert(snapshot_of(pre, ex)[a].id == out[a].id);
                    }
                }
            }
        }
    }
}

/// Removing an identifier and excluding it from a snapshot are the same
/// operation on the record sequence.
pub proof fn lemma_remove_is_exclusion(s: Seq<ClientRecord>, id: u128)
    ensures
        remove_id(s, id) == snapshot_of(s, Some(id)),
    decreases s.len(),
{
    reveal(Seq::filter);
    if s.len() == 0 {
    } else {
        lemma_remove_is_exclusion(s.drop_last(), id);
    }
}

/// Overwriting the position of an absent identifier changes nothing.
pub proof fn lemma_update_pos_absent(s: Seq<ClientRecord>, id: u128, p: Position)
    requires
        !contains_id(s, id),
    ensures
        update_pos(s, id, p) == s,
{
    assert forall|i: int| 0 <= i < s.len() implies update_pos(s, id, p)[i] == s[i] by {
        assert(s[i].id != id);
    }
    assert(update_pos(s, id, p) =~= s);
}

/// Overwriting the position of the identifier found at index `k` updates
/// exactly that slot.
pub proof fn lemma_update_pos_at(s: Seq<ClientRecord>, id: u128, p: Position, k: int)
    requires
        distinct_ids(s),
        0 <= k < s.len(),
        s[k].id == id,
    ensures
        update_pos(s, id, p) == s.update(k, ClientRecord { id: id, pos: p }),
{
    assert forall|i: int| 0 <= i < s.len() implies update_pos(s, id, p)[i] == s.update(
        k,
        ClientRecord { id: id, pos: p },
    )[i] by {
        if i != k {
            assert(s[i].id != id);
        }
    }
    assert(update_pos(s, id, p) =~= s.update(k, ClientRecord { id: id, pos: p }));
}

/// After an overwrite, the identifier reads back with the written
/// position.
pub proof fn lemma_update_pos_lookup(s: Seq<ClientRecord>, id: u128, p: Position)
    requires
        contains_id(s, id),
    ensures
        lookup(update_pos(s, id, p), id) == Some(p),
    decreases s.len(),
{
    let t = update_pos(s, id, p);
    if s[0].id == id {
        assert(t[0] == ClientRecord { id: id, pos: p });
    } else {
        assert(t[0] == s[0]);
        assert(contains_id(s.drop_first(), id)) by {
            let i = choose|i: int| 0 <= i < s.len() && s[i].id == id;
            assert(s.drop_first()[i - 1].id == id);
        }
        lemma_update_pos_lookup(s.drop_first(), id, p);
        assert(t.drop_first() == update_pos(s.drop_first(), id, p)) by {
            assert(t.drop_first() =~= update_pos(s.drop_first(), id, p));
        }
    }
}

/// A snapshot that excludes `id` is blind to overwrites of `id`'s
/// position: every other client's record is untouched.
pub proof fn lemma_snapshot_of_update(s: Seq<ClientRecord>, id: u128, p: Position)
    requires
        distinct_ids(s),
    ensures
        snapshot_of(update_pos(s, id, p), Some(id)) == snapshot_of(s, Some(id)),
    decreases s.len(),
{
    reveal(Seq::filter);
    let t = update_pos(s, id, p);
    if s.len() == 0 {
        assert(t =~= s);
    } else {
        let pre = s.drop_last();
        assert(distinct_ids(pre)) by {
            assert(forall|i: int| 0 <= i < pre.len() ==> pre[i] == s[i]);
        }
        lemma_snapshot_of_update(pre, id, p);
        assert(t.drop_last() == update_pos(pre, id, p)) by {
            assert(t.drop_last() =~= update_pos(pre, id, p));
        }
        assert(t.last() == if s.last().id == id {
            ClientRecord { id: id, pos: p }
        } else {
            s.last()
        });
    }
}

// ------------------------------------------------------------------
// Facts about the reconciler's model.
// ------------------------------------------------------------------

/// An identifier survives into the kept part exactly when it is both
/// tracked and still present in the snapshot.
pub proof fn lemma_kept_part_contains(ents: Seq<ClientRecord>, snap: Seq<ClientRecord>, x: u128)
    ensures
        contains_id(kept_part(ents, snap), x) <==> (contains_id(ents, x) && contains_id(snap, x)),
    decreases ents.len(),
{
    reveal(Seq::filter);
    if ents.len() == 0 {
    } else {
        let pre = ents.drop_last();
        lemma_kept_part_contains(pre, snap, x);
        lemma_contains_id_push(pre, ents.last(), x);
        assert(pre.push(ents.last()) =~= ents);
        if contains_id(snap, ents.last().id) {
            lemma_contains_id_push(kept_part(pre, snap), ents.last(), x);
        }
    }
}

/// Keeping a subset of the entities keeps their identifiers distinct.
pub proof fn lemma_kept_part_distinct(ents: Seq<ClientRecord>, snap: Seq<ClientRecord>)
    requires
        distinct_ids(ents),
    ensures
        distinct_ids(kept_part(ents, snap)),
    decreases ents.len(),
{
    reveal(Seq::filter);
    if ents.len() == 0 {
    } else {
        let pre = ents.drop_last();
        assert(distinct_ids(pre)) by {
            assert(forall|i: int| 0 <= i < pre.len() ==> pre[i] == ents[i]);
        }
        lemma_kept_part_distinct(pre, snap);
        if contains_id(snap, ents.last().id) {
            let out = kept_part(pre, snap).push(ents.last());
            assert(!contains_id(pre, ents.last().id)) by {
                assert(forall|i: int|
                    0 <= i < pre.len() ==> #[trigger] ents[i].id != ents[ents.len() - 1].id);
            }
            lemma_kept_part_contains(pre, snap, ents.last().id);
            assert forall|a: int, b: int| 0 <= a < b < out.len() implies out[a].id != out[b].id by {
                if b < out.len() - 1 {
                    assert(out[a] == kept_part(pre, snap)[a]);
                    assert(out[b] == kept_part(pre, snap)[b]);
                } else {
                    assert(out[b] == ents.last());
                    assert(contains_id(kept_part(pre, snap), out[a].id)) by {
                        assert(kept_part(pre, snap)[a].id == out[a].id);
                    }
                }
            }
        }
    }
}

/// An entity freshly created for a snapshot is one of the snapshot's own
/// entries.
pub proof fn lemma_fresh_part_contains(ents: Seq<ClientRecord>, snap: Seq<ClientRecord>, x: u128)
    ensures
        contains_id(fresh_part(ents, snap), x) <==> (contains_id(snap, x) && !contains_id(
            ents,
            x,
        )),
    decreases snap.len(),
{
    reveal(Seq::filter);
    if snap.len() == 0 {
    } else {
        let pre = snap.drop_last();
        lemma_fresh_part_contains(ents, pre, x);
        lemma_contains_id_push(pre, snap.last(), x);
        assert(pre.push(snap.last()) =~= snap);
        if !contains_id(ents, snap.last().id) {
            lemma_contains_id_push(fresh_part(ents, pre), snap.last(), x);
        }
    }
}

/// Two entity sets that agree on the membership of every snapshot entry
/// create the same fresh entities.
pub proof fn lemma_fresh_part_congruent(
    a: Seq<ClientRecord>,
    b: Seq<ClientRecord>,
    snap: Seq<ClientRecord>,
)
    requires
        forall|i: int|
            0 <= i < snap.len() ==> contains_id(a, #[trigger] snap[i].id) == contains_id(
                b,
                snap[i].id,
            ),
    ensures
        fresh_part(a, snap) == fresh_part(b, snap),
    decreases snap.len(),
{
    reveal(Seq::filter);
    if snap.len() == 0 {
    } else {
        let pre = snap.drop_last();
        assert(forall|i: int| 0 <= i < pre.len() ==> pre[i] == snap[i]);
        lemma_fresh_part_congruent(a, b, pre);
        assert(contains_id(a, snap[snap.len() - 1].id) == contains_id(b, snap[snap.len() - 1].id));
    }
}

/// One step of the membership diff: how keeping and destroying extend
/// when one more tracked entity is considered.
pub proof fn lemma_diff_step(ents: Seq<ClientRecord>, snap: Seq<ClientRecord>, i: int)
    requires
        0 <= i < ents.len(),
    ensures
        kept_part(ents.take(i + 1), snap) == if contains_id(snap, ents[i].id) {
            kept_part(ents.take(i), snap).push(ents[i])
        } else {
            kept_part(ents.take(i), snap)
        },
        destroys(ents.take(i + 1), snap) == if contains_id(snap, ents[i].id) {
            destroys(ents.take(i), snap)
        } else {
            destroys(ents.take(i), snap).push(ReconcileOp::Destroy { id: ents[i].id })
        },
{
    reveal(Seq::filter);
    let pre = ents.take(i);
    let post = ents.take(i + 1);
    assert(post.drop_last() == pre) by {
        assert(post.drop_last() =~= pre);
    }
    assert(post.last() == ents[i]);
    if contains_id(snap, ents[i].id) {
    } else {
        assert(destroys(post, snap) =~= destroys(pre, snap).push(
            ReconcileOp::Destroy { id: ents[i].id },
        ));
    }
}

/// One step of the snapshot walk: how the emitted per-entry operations
/// extend when one more snapshot entry is considered.
pub proof fn lemma_upsert_step(ents: Seq<ClientRecord>, snap: Seq<ClientRecord>, j: int)
    requires
        0 <= j < snap.len(),
    ensures
        upserts(ents, snap.take(j + 1)) == upserts(ents, snap.take(j)).push(
            if contains_id(ents, snap[j].id) {
                ReconcileOp::Update { id: snap[j].id, pos: snap[j].pos }
            } else {
                ReconcileOp::Create { id: snap[j].id, pos: snap[j].pos }
            },
        ),
{
    assert(snap.take(j + 1) =~= snap.take(j).push(snap[j]));
    assert(upserts(ents, snap.take(j + 1)) =~= upserts(ents, snap.take(j)).push(
        if contains_id(ents, snap[j].id) {
            ReconcileOp::Update { id: snap[j].id, pos: snap[j].pos }
        } else {
            ReconcileOp::Create { id: snap[j].id, pos: snap[j].pos }
        },
    ));
}

/// One step of the snapshot walk over a tracked identifier: the snapshot
/// entry overwrites exactly the slot that carries its identifier, and
/// creates nothing.
pub proof fn lemma_overwrite_step_hit(
    kept: Seq<ClientRecord>,
    snap: Seq<ClientRecord>,
    j: int,
    k: int,
)
    requires
        distinct_ids(kept),
        distinct_ids(snap),
        0 <= j < snap.len(),
        0 <= k < kept.len(),
        kept[k].id == snap[j].id,
    ensures
        overwrite_from(kept, snap.take(j + 1), snap) == overwrite_from(
            kept,
            snap.take(j),
            snap,
        ).update(k, ClientRecord { id: snap[j].id, pos: snap[j].pos }),
        fresh_part(kept, snap.take(j + 1)) == fresh_part(kept, snap.take(j)),
{
    reveal(Seq::filter);
    let pre = snap.take(j);
    let post = snap.take(j + 1);
    let r = snap[j];
    assert(post.drop_last() == pre) by {
        assert(post.drop_last() =~= pre);
    }
    assert(post.last() == r);
    lemma_lookup_distinct(snap, j);
    assert(contains_id(kept, r.id));
    let target = overwrite_from(kept, pre, snap).update(
        k,
        ClientRecord { id: snap[j].id, pos: snap[j].pos },
    );
    assert forall|m: int| 0 <= m < kept.len() implies overwrite_from(kept, post, snap)[m]
        == target[m] by {
        lemma_contains_id_push(pre, r, kept[m].id);
        if m == k {
            assert(contains_id(post, kept[m].id));
        } else {
            assert(kept[m].id != r.id);
        }
    }
    assert(overwrite_from(kept, post, snap) =~= target);
}

/// Removing an absent identifier changes nothing.
pub proof fn lemma_remove_id_absent(s: Seq<ClientRecord>, id: u128)
    requires
        !contains_id(s, id),
    ensures
        remove_id(s, id) == s,
    decreases s.len(),
{
    reveal(Seq::filter);
    if s.len() == 0 {
        assert(remove_id(s, id) =~= s);
    } else {
        let pre = s.drop_last();
        assert(!contains_id(pre, id)) by {
            if contains_id(pre, id) {
                let t = choose|t: int| 0 <= t < pre.len() && pre[t].id == id;
                assert(s[t].id == id);
            }
        }
        lemma_remove_id_absent(pre, id);
        assert(s[s.len() - 1].id != id);
        assert(pre.push(s.last()) =~= s);
    }
}

/// A snapshot that still contains every tracked identifier keeps every
/// entity.
pub proof fn lemma_kept_part_all(ents: Seq<ClientRecord>, snap: Seq<ClientRecord>)
    requires
        forall|t: int| 0 <= t < ents.len() ==> contains_id(snap, #[trigger] ents[t].id),
    ensures
        kept_part(ents, snap) == ents,
    decreases ents.len(),
{
    reveal(Seq::filter);
    if ents.len() == 0 {
        assert(kept_part(ents, snap) =~= ents);
    } else {
        let pre = ents.drop_last();
        assert(forall|t: int| 0 <= t < pre.len() ==> pre[t] == ents[t]);
        lemma_kept_part_all(pre, snap);
        assert(contains_id(snap, ents[ents.len() - 1].id));
        assert(pre.push(ents.last()) =~= ents);
    }
}

/// When every snapshot entry is already tracked, nothing fresh is
/// created.
pub proof fn lemma_fresh_part_none(ents: Seq<ClientRecord>, snap: Seq<ClientRecord>)
    requires
        forall|t: int| 0 <= t < snap.len() ==> contains_id(ents, #[trigger] snap[t].id),
    ensures
        fresh_part(ents, snap) == Seq::<ClientRecord>::empty(),
    decreases snap.len(),
{
    reveal(Seq::filter);
    if snap.len() == 0 {
        assert(fresh_part(ents, snap) =~= Seq::<ClientRecord>::empty());
    } else {
        let pre = snap.drop_last();
        assert(forall|t: int| 0 <= t < pre.len() ==> pre[t] == snap[t]);
        lemma_fresh_part_none(ents, pre);
        assert(contains_id(ents, snap[snap.len() - 1].id));
    }
}

/// When the snapshot still contains every tracked identifier, nothing is
/// destroyed.
pub proof fn lemma_destroys_none(ents: Seq<ClientRecord>, snap: Seq<ClientRecord>)
    requires
        forall|t: int| 0 <= t < ents.len() ==> contains_id(snap, #[trigger] ents[t].id),
    ensures
        destroys(ents, snap) == Seq::<ReconcileOp>::empty(),
    decreases ents.len(),
{
    reveal(Seq::filter);
    if ents.len() == 0 {
        assert(destroys(ents, snap) =~= Seq::<ReconcileOp>::empty());
    } else {
        let pre = ents.drop_last();
        assert(forall|t: int| 0 <= t < pre.len() ==> pre[t] == ents[t]);
        lemma_destroys_none(pre, snap);
        assert(contains_id(snap, ents[ents.len() - 1].id));
        assert(destroys(ents, snap) =~= destroys(pre, snap));
    }
}

/// Every freshly created entity is one of the snapshot's own entries.
pub proof fn lemma_fresh_part_elements(ents: Seq<ClientRecord>, snap: Seq<ClientRecord>)
    ensures
        forall|u: int|
            0 <= u < fresh_part(ents, snap).len() ==> snap.contains(
                #[trigger] fresh_part(ents, snap)[u],
            ),
    decreases snap.len(),
{
    reveal(Seq::filter);
    if snap.len() == 0 {
    } else {
        let pre = snap.drop_last();
        lemma_fresh_part_elements(ents, pre);
        assert(pre.push(snap.last()) =~= snap);
        assert forall|u: int| 0 <= u < fresh_part(ents, snap).len() implies snap.contains(
            #[trigger] fresh_part(ents, snap)[u],
        ) by {
            if u < fresh_part(ents, pre).len() {
                assert(fresh_part(ents, snap)[u] == fresh_part(ents, pre)[u]);
                assert(pre.contains(fresh_part(ents, pre)[u]));
                let w = choose|w: int|
                    0 <= w < pre.len() && pre[w] == fresh_part(ents, pre)[u];
                assert(snap[w] == fresh_part(ents, snap)[u]);
            } else {
                assert(fresh_part(ents, snap)[u] == snap.last());
                assert(snap[snap.len() - 1] == snap.last());
            }
        }
    }
}

/// Every destroy concerns an identifier that was tracked and that the
/// snapshot no longer contains.
pub proof fn lemma_destroys_elements(ents: Seq<ClientRecord>, snap: Seq<ClientRecord>)
    ensures
        forall|t: int|
            0 <= t < destroys(ents, snap).len() ==> (#[trigger] destroys(ents, snap)[t]
                matches ReconcileOp::Destroy { id } && contains_id(ents, id) && !contains_id(
                snap,
                id,
            )),
    decreases ents.len(),
{
    reveal(Seq::filter);
    if ents.len() == 0 {
    } else {
        let pre = ents.drop_last();
        lemma_destroys_elements(pre, snap);
        assert(pre.push(ents.last()) =~= ents);
        assert forall|t: int| 0 <= t < destroys(ents, snap).len() implies (#[trigger] destroys(
            ents,
            snap,
        )[t] matches ReconcileOp::Destroy { id } && contains_id(ents, id) && !contains_id(
            snap,
            id,
        )) by {
            if t < destroys(pre, snap).len() {
                assert(destroys(ents, snap)[t] == destroys(pre, snap)[t]);
                assert(destroys(pre, snap)[t] matches ReconcileOp::Destroy { id }
                    && contains_id(pre, id) && !contains_id(snap, id));
                let x = op_id(destroys(pre, snap)[t]);
                let w = choose|w: int| 0 <= w < pre.len() && pre[w].id == x;
                assert(ents[w].id == x);
            } else {
                assert(!contains_id(snap, ents.last().id));
                assert(destroys(ents, snap)[t] == ReconcileOp::Destroy { id: ents.last().id });
                assert(ents[ents.len() - 1].id == ents.last().id);
            }
        }
    }
}

/// One step of the snapshot walk over an untracked identifier: the
/// snapshot entry overwrites nothing and is created as a fresh entity.
pub proof fn lemma_overwrite_step_miss(kept: Seq<ClientRecord>, snap: Seq<ClientRecord>, j: int)
    requires
        0 <= j < snap.len(),
        !contains_id(kept, snap[j].id),
    ensures
        overwrite_from(kept, snap.take(j + 1), snap) == overwrite_from(kept, snap.take(j), snap),
        fresh_part(kept, snap.take(j + 1)) == fresh_part(kept, snap.take(j)).push(snap[j]),
{
    reveal(Seq::filter);
    let pre = snap.take(j);
    let post = snap.take(j + 1);
    let r = snap[j];
    assert(post.drop_last() == pre) by {
        assert(post.drop_last() =~= pre);
    }
    assert(post.last() == r);
    assert forall|m: int| 0 <= m < kept.len() implies overwrite_from(kept, post, snap)[m]
        == overwrite_from(kept, pre, snap)[m] by {
        lemma_contains_id_push(pre, r, kept[m].id);
        assert(kept[m].id != r.id);
    }
    assert(overwrite_from(kept, post, snap) =~= overwrite_from(kept, pre, snap));
}

} // verus!
