use presence_sync::reconciler::Reconciler;
use presence_sync::snapshot::Snapshot;
use presence_sync::types::ClientRecord;
use presence_sync::types::Position;
use presence_sync::types::ReconcileOp;

fn pos(x: f32, y: f32) -> Position {
    Position { x: x.to_bits(), y: y.to_bits() }
}

fn rec(id: u128, x: f32, y: f32) -> ClientRecord {
    ClientRecord { id, pos: pos(x, y) }
}

fn snap(records: Vec<ClientRecord>) -> Snapshot {
    Snapshot::from_records(records).expect("distinct identifiers")
}

#[test]
fn from_records_rejects_duplicate_ids() {
    let r = Snapshot::from_records(vec![rec(1, 0.0, 0.0), rec(1, 2.0, 2.0)]);
    assert!(r.is_none());
}

#[test]
fn from_records_accepts_distinct_ids() {
    let s = Snapshot::from_records(vec![rec(1, 0.0, 0.0), rec(2, 2.0, 2.0)]).unwrap();
    assert_eq!(s.len(), 2);
    assert!(s.contains(1));
    assert_eq!(s.find(2), Some(pos(2.0, 2.0)));
    assert_eq!(s.find(3), None);
}

#[test]
fn first_snapshot_creates_everything() {
    let mut rc = Reconciler::new();
    let ops = rc.apply(&snap(vec![rec(1, 1.0, 2.0), rec(2, 3.0, 4.0)]));
    assert_eq!(
        ops,
        vec![
            ReconcileOp::Create { id: 1, pos: pos(1.0, 2.0) },
            ReconcileOp::Create { id: 2, pos: pos(3.0, 4.0) },
        ]
    );
    assert_eq!(rc.len(), 2);
    assert_eq!(rc.find(1), Some(pos(1.0, 2.0)));
    assert_eq!(rc.find(2), Some(pos(3.0, 4.0)));
}

#[test]
fn applying_the_same_snapshot_twice_changes_nothing() {
    let mut rc = Reconciler::new();
    let s = snap(vec![rec(1, 1.0, 2.0), rec(2, 3.0, 4.0)]);
    rc.apply(&s);
    let before = rc.current().clone();

    let ops = rc.apply(&s);

    // Zero creates, zero destroys on the second application...
    for op in &ops {
        assert!(matches!(op, ReconcileOp::Update { .. }));
    }
    assert_eq!(ops.len(), 2);
    // ...and the same local entity set as after one application.
    assert_eq!(rc.current(), &before);
}

#[test]
fn membership_changes_alone_drive_create_and_destroy() {
    let mut rc = Reconciler::new();
    let s1 = snap(vec![rec(1, 0.0, 0.0), rec(2, 1.0, 1.0)]);
    let s2 = snap(vec![rec(1, 2.0, 2.0), rec(3, 3.0, 3.0)]);
    rc.apply(&s1);

    let ops = rc.apply(&s2);

    // Exactly: destroy B, update A in place, create C. A is never
    // destroyed and recreated merely because its position changed.
    assert_eq!(
        ops,
        vec![
            ReconcileOp::Destroy { id: 2 },
            ReconcileOp::Update { id: 1, pos: pos(2.0, 2.0) },
            ReconcileOp::Create { id: 3, pos: pos(3.0, 3.0) },
        ]
    );
    assert_eq!(rc.len(), 2);
    assert_eq!(rc.find(1), Some(pos(2.0, 2.0)));
    assert_eq!(rc.find(2), None);
    assert_eq!(rc.find(3), Some(pos(3.0, 3.0)));
}

#[test]
fn an_empty_snapshot_destroys_everything() {
    let mut rc = Reconciler::new();
    rc.apply(&snap(vec![rec(1, 0.0, 0.0), rec(2, 1.0, 1.0)]));

    let ops = rc.apply(&snap(vec![]));

    assert_eq!(ops, vec![ReconcileOp::Destroy { id: 1 }, ReconcileOp::Destroy { id: 2 }]);
    assert_eq!(rc.len(), 0);
    assert!(rc.current().is_empty());
}

#[test]
fn surviving_entities_keep_their_slot() {
    let mut rc = Reconciler::new();
    rc.apply(&snap(vec![rec(7, 0.0, 0.0), rec(8, 1.0, 1.0), rec(9, 2.0, 2.0)]));
    // 8 leaves, 7 and 9 move, 10 arrives.
    rc.apply(&snap(vec![rec(9, 5.0, 5.0), rec(10, 6.0, 6.0), rec(7, 4.0, 4.0)]));

    let ents = rc.current();
    // Survivors first, in their original creation order, then the new one.
    assert_eq!(
        ents,
        &vec![rec(7, 4.0, 4.0), rec(9, 5.0, 5.0), rec(10, 6.0, 6.0)]
    );
}
