use liveboard::datatypes::Circle;
use liveboard::hub::Hub;
use liveboard::session::{Action, Session, SessionState, WsEvent};

/// Drive one session event and perform the resulting actions against the
/// hub, collecting persisted shapes in `sink`.
fn perform(
    hub: &mut Hub,
    session: &mut Session,
    handle: u64,
    ev: WsEvent,
    now: u64,
    sink: &mut Vec<(u64, Circle)>,
) {
    let actions = session.on_event(ev, now);
    for action in actions {
        match action {
            Action::Register { board, handle } => hub.register(board, handle),
            Action::Unregister { board, handle } => hub.unregister(board, handle),
            Action::Broadcast(payload) => hub.broadcast(7, handle, &payload),
            Action::Persist { board, circle } => sink.push((board, circle)),
            Action::SendPong(_) => {}
            Action::EchoBinary(_) => {}
            Action::CloseSocket => {}
        }
    }
}

#[test]
fn circle_reaches_everyone_on_the_board_and_the_sink_once() {
    let mut hub = Hub::new();
    let mut sink: Vec<(u64, Circle)> = Vec::new();

    // X, Y, Z share board 7; W sits alone on board 9
    let mut x = Session::new(7, 1, 0);
    let mut y = Session::new(7, 2, 0);
    let mut z = Session::new(7, 3, 0);
    let mut w = Session::new(9, 4, 0);
    perform(&mut hub, &mut x, 1, WsEvent::HandshakeComplete, 0, &mut sink);
    perform(&mut hub, &mut y, 2, WsEvent::HandshakeComplete, 0, &mut sink);
    perform(&mut hub, &mut z, 3, WsEvent::HandshakeComplete, 0, &mut sink);
    // W's broadcast routing would use board 9; register it directly
    let w_actions = w.on_event(WsEvent::HandshakeComplete, 0);
    assert_eq!(w_actions.len(), 1);
    hub.register(9, 4);

    let frame =
        String::from("{\"Circle\":{\"x\":5,\"y\":5,\"radius\":5,\"color\":{\"r\":1,\"g\":2,\"b\":3}}}");
    perform(&mut hub, &mut x, 1, WsEvent::Text(frame.clone()), 10, &mut sink);

    // Y and Z each received the identical payload
    let to_y = hub.take_messages(2);
    let to_z = hub.take_messages(3);
    assert_eq!(to_y.len(), 1);
    assert_eq!(to_y[0].0, frame);
    assert_eq!(to_z.len(), 1);
    assert_eq!(to_z[0].0, frame);
    // the sender and the other board got nothing
    assert!(hub.take_messages(1).is_empty());
    assert!(hub.take_messages(4).is_empty());
    // the sink saw exactly one create call, for board 7
    assert_eq!(sink.len(), 1);
    assert_eq!(sink[0].0, 7);
    assert_eq!(sink[0].1.x, 5);
    assert_eq!(sink[0].1.color.g, 2);
    assert_eq!(x.get_state(), SessionState::Open);
}

#[test]
fn timed_out_session_leaves_the_registry() {
    let mut hub = Hub::new();
    let mut sink: Vec<(u64, Circle)> = Vec::new();
    let mut x = Session::new(7, 1, 0);
    let mut y = Session::new(7, 2, 0);
    perform(&mut hub, &mut x, 1, WsEvent::HandshakeComplete, 0, &mut sink);
    perform(&mut hub, &mut y, 2, WsEvent::HandshakeComplete, 0, &mut sink);
    assert!(hub.is_registered(7, 2));
    perform(&mut hub, &mut y, 2, WsEvent::TimerCheck, 30_001, &mut sink);
    assert!(!hub.is_registered(7, 2));
    assert_eq!(y.get_state(), SessionState::Closing);
    // the racing second timeout changes nothing
    perform(&mut hub, &mut y, 2, WsEvent::TimerCheck, 31_000, &mut sink);
    assert!(!hub.is_registered(7, 2));
    perform(&mut hub, &mut y, 2, WsEvent::UnregisterDone, 31_001, &mut sink);
    assert_eq!(y.get_state(), SessionState::Closed);
    // X still receives broadcasts
    let frame =
        String::from("{\"Pointer\":{\"id\":\"#010203\",\"x\":1,\"y\":1,\"color\":{\"r\":1,\"g\":2,\"b\":3}}}");
    hub.broadcast(7, 99, &frame);
    assert_eq!(hub.take_messages(1).len(), 1);
    assert!(sink.is_empty());
}
