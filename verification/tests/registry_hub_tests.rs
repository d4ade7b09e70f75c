use liveboard::hub::Hub;
use liveboard::registry::Registry;

#[test]
fn registry_register_and_snapshot() {
    let mut reg = Registry::new();
    reg.register(7, 1);
    reg.register(7, 2);
    reg.register(9, 3);
    let mut snap = reg.snapshot(7);
    snap.sort();
    assert_eq!(snap, vec![1, 2]);
    let snap9 = reg.snapshot(9);
    assert_eq!(snap9, vec![3]);
    assert!(reg.is_registered(7, 1));
    assert!(!reg.is_registered(9, 1));
}

#[test]
fn registry_unregister_is_idempotent() {
    let mut reg = Registry::new();
    reg.register(7, 1);
    reg.register(7, 2);
    reg.unregister(7, 2);
    reg.unregister(7, 2);
    reg.unregister(7, 99);
    let snap = reg.snapshot(7);
    assert_eq!(snap, vec![1]);
}

#[test]
fn registry_net_effect_of_interleaving() {
    // registers and unregisters interleaved across "sessions"
    let mut reg = Registry::new();
    reg.register(7, 1);
    reg.register(9, 2);
    reg.register(7, 3);
    reg.unregister(7, 1);
    reg.register(9, 4);
    reg.unregister(9, 2);
    reg.unregister(7, 1); // racing second close: no-op
    let mut snap7 = reg.snapshot(7);
    snap7.sort();
    let mut snap9 = reg.snapshot(9);
    snap9.sort();
    assert_eq!(snap7, vec![3]);
    assert_eq!(snap9, vec![4]);
}

#[test]
fn broadcast_reaches_everyone_else() {
    let mut hub = Hub::new();
    hub.register(7, 1);
    hub.register(7, 2);
    hub.register(7, 3);
    let payload = String::from("hello");
    hub.broadcast(7, 1, &payload);
    let to_sender = hub.take_messages(1);
    let to_two = hub.take_messages(2);
    let to_three = hub.take_messages(3);
    assert!(to_sender.is_empty());
    assert_eq!(to_two.len(), 1);
    assert_eq!(to_two[0].0, "hello");
    assert_eq!(to_three.len(), 1);
    assert_eq!(to_three[0].0, "hello");
}

#[test]
fn broadcast_is_isolated_per_board() {
    let mut hub = Hub::new();
    hub.register(7, 1);
    hub.register(7, 2);
    hub.register(9, 4);
    let payload = String::from("only board seven");
    hub.broadcast(7, 1, &payload);
    assert!(hub.take_messages(4).is_empty());
    assert_eq!(hub.take_messages(2).len(), 1);
}

#[test]
fn broadcast_keeps_sender_order() {
    let mut hub = Hub::new();
    hub.register(7, 1);
    hub.register(7, 2);
    hub.broadcast(7, 1, &String::from("first"));
    hub.broadcast(7, 1, &String::from("second"));
    let got = hub.take_messages(2);
    assert_eq!(got.len(), 2);
    assert_eq!(got[0].0, "first");
    assert_eq!(got[1].0, "second");
}

#[test]
fn unregistered_handle_gets_nothing_later() {
    let mut hub = Hub::new();
    hub.register(7, 1);
    hub.register(7, 2);
    hub.unregister(7, 2);
    hub.broadcast(7, 1, &String::from("late"));
    assert!(hub.take_messages(2).is_empty());
    assert!(!hub.is_registered(7, 2));
}
