use liveboard::session::{Action, Session, SessionState, WsEvent};

fn circle_frame() -> String {
    String::from("{\"Circle\":{\"x\":5,\"y\":5,\"radius\":5,\"color\":{\"r\":1,\"g\":2,\"b\":3}}}")
}

fn pointer_frame() -> String {
    String::from("{\"Pointer\":{\"id\":\"#010203\",\"x\":9,\"y\":9,\"color\":{\"r\":1,\"g\":2,\"b\":3}}}")
}

#[test]
fn handshake_registers_once() {
    let mut s = Session::new(7, 1, 0);
    assert_eq!(s.get_state(), SessionState::Connecting);
    let actions = s.on_event(WsEvent::HandshakeComplete, 0);
    assert_eq!(actions.len(), 1);
    match &actions[0] {
        Action::Register { board, handle } => {
            assert_eq!(*board, 7);
            assert_eq!(*handle, 1);
        }
        _ => panic!("expected a register action"),
    }
    assert_eq!(s.get_state(), SessionState::Open);
}

#[test]
fn ping_answers_pong_and_refreshes() {
    let mut s = Session::new(7, 1, 0);
    s.on_event(WsEvent::HandshakeComplete, 0);
    let actions = s.on_event(WsEvent::Ping(vec![9, 8, 7]), 42);
    assert_eq!(actions.len(), 1);
    match &actions[0] {
        Action::SendPong(data) => assert_eq!(data, &vec![9, 8, 7]),
        _ => panic!("expected a pong"),
    }
    assert_eq!(s.heartbeat_stamp(), 42);
    let none = s.on_event(WsEvent::Pong, 100);
    assert!(none.is_empty());
    assert_eq!(s.heartbeat_stamp(), 100);
}

#[test]
fn circle_is_broadcast_and_persisted() {
    let mut s = Session::new(7, 1, 0);
    s.on_event(WsEvent::HandshakeComplete, 0);
    let actions = s.on_event(WsEvent::Text(circle_frame()), 10);
    assert_eq!(actions.len(), 2);
    match &actions[0] {
        Action::Persist { board, circle } => {
            assert_eq!(*board, 7);
            assert_eq!(circle.x, 5);
            assert_eq!(circle.radius, 5);
            assert_eq!(circle.color.b, 3);
        }
        _ => panic!("expected persistence first"),
    }
    match &actions[1] {
        Action::Broadcast(payload) => assert_eq!(payload, &circle_frame()),
        _ => panic!("expected a broadcast"),
    }
    assert_eq!(s.get_state(), SessionState::Open);
}

#[test]
fn pointer_is_broadcast_only() {
    let mut s = Session::new(7, 1, 0);
    s.on_event(WsEvent::HandshakeComplete, 0);
    let actions = s.on_event(WsEvent::Text(pointer_frame()), 10);
    assert_eq!(actions.len(), 1);
    match &actions[0] {
        Action::Broadcast(payload) => assert_eq!(payload, &pointer_frame()),
        _ => panic!("expected a broadcast and nothing else"),
    }
}

#[test]
fn malformed_text_is_fatal_to_this_session() {
    let mut s = Session::new(7, 1, 0);
    s.on_event(WsEvent::HandshakeComplete, 0);
    let actions = s.on_event(WsEvent::Text(String::from("{\"garbage\"")), 10);
    assert_eq!(actions.len(), 2);
    assert!(matches!(actions[0], Action::Unregister { board: 7, handle: 1 }));
    assert!(matches!(actions[1], Action::CloseSocket));
    assert_eq!(s.get_state(), SessionState::Closing);
    let after = s.on_event(WsEvent::UnregisterDone, 11);
    assert!(after.is_empty());
    assert_eq!(s.get_state(), SessionState::Closed);
    // a dead session ignores everything
    assert!(s.on_event(WsEvent::Text(circle_frame()), 12).is_empty());
}

#[test]
fn binary_frames_echo_back() {
    let mut s = Session::new(7, 1, 0);
    s.on_event(WsEvent::HandshakeComplete, 0);
    let actions = s.on_event(WsEvent::Binary(vec![0xde, 0xad]), 5);
    assert_eq!(actions.len(), 1);
    match &actions[0] {
        Action::EchoBinary(data) => assert_eq!(data, &vec![0xde, 0xad]),
        _ => panic!("expected an echo"),
    }
}

#[test]
fn heartbeat_timeout_unregisters_exactly_once() {
    let mut s = Session::new(7, 1, 0);
    s.on_event(WsEvent::HandshakeComplete, 0);
    s.on_event(WsEvent::Pong, 10);
    // exactly thirty seconds of silence is still tolerated
    let quiet = s.on_event(WsEvent::TimerCheck, 30_010);
    assert!(quiet.is_empty());
    assert_eq!(s.get_state(), SessionState::Open);
    // past the timeout the session force-closes
    let closing = s.on_event(WsEvent::TimerCheck, 30_011);
    assert_eq!(closing.len(), 2);
    assert!(matches!(closing[0], Action::Unregister { board: 7, handle: 1 }));
    assert!(matches!(closing[1], Action::CloseSocket));
    assert_eq!(s.get_state(), SessionState::Closing);
    // a racing second timer cannot unregister again
    let nothing = s.on_event(WsEvent::TimerCheck, 40_000);
    assert!(nothing.is_empty());
    let done = s.on_event(WsEvent::UnregisterDone, 40_001);
    assert!(done.is_empty());
    assert_eq!(s.get_state(), SessionState::Closed);
}

#[test]
fn close_before_handshake_never_unregisters() {
    let mut s = Session::new(7, 1, 0);
    let actions = s.on_event(WsEvent::CloseFrame, 1);
    assert!(actions.is_empty());
    assert_eq!(s.get_state(), SessionState::Closed);
}
