use presence_sync::handler::handle_frame;
use presence_sync::registry::Registry;
use presence_sync::types::Position;

fn pos(x: f32, y: f32) -> Position {
    Position { x: x.to_bits(), y: y.to_bits() }
}

#[test]
fn report_updates_and_earns_a_reply() {
    let mut reg = Registry::new();
    let me = reg.register();
    let other = reg.register();

    let reply = handle_frame(&mut reg, me, Some(pos(5.0, 5.0)));
    let snap = reply.expect("a decoded report earns a reply");

    // The reporter's own record reads back as reported...
    assert_eq!(reg.get(me), Some(pos(5.0, 5.0)));
    // ...and the reply excludes the reporter but shows the other client.
    assert!(!snap.contains(me));
    assert!(snap.contains(other));
    assert_eq!(snap.find(other), Some(pos(0.0, 0.0)));
    assert_eq!(snap.len(), 1);
}

#[test]
fn malformed_frame_is_silently_ignored() {
    let mut reg = Registry::new();
    let me = reg.register();
    reg.update_position(me, pos(3.0, 4.0));

    let reply = handle_frame(&mut reg, me, None);

    assert!(reply.is_none());
    // The last valid position is retained; nothing else changed.
    assert_eq!(reg.len(), 1);
    assert_eq!(reg.get(me), Some(pos(3.0, 4.0)));
}

#[test]
fn end_to_end_scenario() {
    let mut reg = Registry::new();
    let c1 = reg.register();
    let c2 = reg.register();
    let c3 = reg.register();

    // Connection 1 reports (5, 5).
    let snap1 = handle_frame(&mut reg, c1, Some(pos(5.0, 5.0))).unwrap();
    assert!(!snap1.contains(c1));
    assert_eq!(snap1.len(), 2);
    assert_eq!(snap1.find(c2), Some(pos(0.0, 0.0)));
    assert_eq!(snap1.find(c3), Some(pos(0.0, 0.0)));

    // Connection 2 disconnects.
    reg.remove(c2);

    // The next snapshot sent to connection 3 no longer shows client 2.
    let snap2 = handle_frame(&mut reg, c3, Some(pos(0.0, 0.0))).unwrap();
    assert!(!snap2.contains(c3));
    assert!(!snap2.contains(c2));
    assert_eq!(snap2.len(), 1);
    assert_eq!(snap2.find(c1), Some(pos(5.0, 5.0)));
}
