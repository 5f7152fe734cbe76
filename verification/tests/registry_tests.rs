use presence_sync::registry::Registry;
use presence_sync::types::Position;

fn pos(x: f32, y: f32) -> Position {
    Position { x: x.to_bits(), y: y.to_bits() }
}

#[test]
fn register_assigns_distinct_ids() {
    let mut reg = Registry::new();
    let mut ids: Vec<u128> = Vec::new();
    for _ in 0..32 {
        ids.push(reg.register());
    }
    for i in 0..ids.len() {
        for j in 0..i {
            assert_ne!(ids[i], ids[j]);
        }
    }
    assert_eq!(reg.len(), 32);
}

#[test]
fn register_survives_removal_without_reuse() {
    let mut reg = Registry::new();
    let a = reg.register();
    reg.remove(a);
    let b = reg.register();
    assert_ne!(a, b);
}

#[test]
fn register_starts_at_origin() {
    let mut reg = Registry::new();
    let id = reg.register();
    assert_eq!(reg.get(id), Some(pos(0.0, 0.0)));
    assert!(reg.is_registered(id));
}

#[test]
fn snapshot_excludes_requester() {
    let mut reg = Registry::new();
    let a = reg.register();
    let b = reg.register();
    let c = reg.register();
    let snap = reg.snapshot(Some(a));
    assert_eq!(snap.len(), 2);
    assert!(!snap.contains(a));
    assert!(snap.contains(b));
    assert!(snap.contains(c));
}

#[test]
fn snapshot_without_exclusion_holds_everyone() {
    let mut reg = Registry::new();
    let a = reg.register();
    let b = reg.register();
    let snap = reg.snapshot(None);
    assert_eq!(snap.len(), 2);
    assert!(snap.contains(a));
    assert!(snap.contains(b));
}

#[test]
fn snapshot_of_empty_registry_is_empty() {
    let reg = Registry::new();
    let snap = reg.snapshot(None);
    assert_eq!(snap.len(), 0);
    assert_eq!(reg.len(), 0);
}

#[test]
fn update_then_read_back() {
    let mut reg = Registry::new();
    let id = reg.register();
    reg.update_position(id, pos(1.5, -2.25));
    assert_eq!(reg.get(id), Some(pos(1.5, -2.25)));
}

#[test]
fn update_of_absent_id_is_noop() {
    let mut reg = Registry::new();
    let id = reg.register();
    reg.update_position(id.wrapping_add(1), pos(9.0, 9.0));
    assert_eq!(reg.len(), 1);
    assert_eq!(reg.get(id), Some(pos(0.0, 0.0)));
    assert_eq!(reg.get(id.wrapping_add(1)), None);
}

#[test]
fn remove_twice_is_harmless() {
    let mut reg = Registry::new();
    let a = reg.register();
    let b = reg.register();
    reg.remove(a);
    assert_eq!(reg.len(), 1);
    assert!(!reg.is_registered(a));
    reg.remove(a);
    assert_eq!(reg.len(), 1);
    assert!(reg.is_registered(b));
    assert_eq!(reg.get(b), Some(pos(0.0, 0.0)));
}

#[test]
fn remove_of_absent_id_is_noop() {
    let mut reg = Registry::new();
    let a = reg.register();
    reg.remove(a.wrapping_add(7));
    assert_eq!(reg.len(), 1);
    assert!(reg.is_registered(a));
}

#[test]
fn positions_pass_through_unchecked() {
    let mut reg = Registry::new();
    let id = reg.register();
    let wild = pos(f32::MAX, -1.0e30);
    reg.update_position(id, wild);
    assert_eq!(reg.get(id), Some(wild));
}
