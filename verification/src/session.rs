//! The transport session: one state machine per socket connection.
//!
//! The session decides; the socket runtime outside this crate acts.  Every
//! frame, timer tick or transport fault is handed in as a `WsEvent`
//! together with the current time, and `on_event` answers with the
//! `Action`s to perform: register or unregister the connection, send a
//! pong, fan a frame out through the hub, persist a decoded circle, echo
//! binary data, or close the socket.  A malformed text frame is a protocol
//! error fatal to this session alone; a circle frame is both broadcast and
//! handed to the persistence sink, whose outcome never gates delivery; a
//! pointer frame is only broadcast.  A session that has heard no ping or
//! pong for `HEARTBEAT_TIMEOUT_MS` is force-closed, and however a session
//! dies, the unregister action is emitted exactly once.

use crate::datatypes::{Circle, SocketMessage};
use crate::wire::{circle_chars, msg_chars, pointer_chars, wf_circle, wf_msg, wf_pointer};
use vstd::prelude::*;

verus! {

/// A session with no pong or ping for this long is force-closed.
pub const HEARTBEAT_TIMEOUT_MS: u64 = 30_000;

/// How often the runtime should run a `TimerCheck` against each session.
pub const PING_INTERVAL_MS: u64 = 5_000;

#[derive(Clone, Copy, PartialEq, Eq, Structural, Debug)]
pub enum SessionState {
    Connecting,
    Open,
    Closing,
    Closed,
}

/// What the socket runtime observed.
pub enum WsEvent {
    /// The websocket handshake succeeded.
    HandshakeComplete,
    /// A ping frame, with its opaque payload.
    Ping(Vec<u8>),
    /// A pong frame.
    Pong,
    /// A text frame.
    Text(String),
    /// A binary frame.
    Binary(Vec<u8>),
    /// The peer sent a close frame.
    CloseFrame,
    /// The socket failed.
    TransportError,
    /// The periodic heartbeat timer fired.
    TimerCheck,
    /// The registry confirmed this session's unregistration.
    UnregisterDone,
}

/// What the socket runtime must do in response.
pub enum Action {
    Register { board: u64, handle: u64 },
    SendPong(Vec<u8>),
    Broadcast(String),
    Persist { board: u64, circle: Circle },
    EchoBinary(Vec<u8>),
    Unregister { board: u64, handle: u64 },
    CloseSocket,
}

/// A text frame that renders some well-formed circle.
pub open spec fn is_circle_frame(chars: Seq<char>) -> bool {
    exists|c: Circle| wf_circle(c) && circle_chars(c) == chars
}

/// A text frame that renders some well-formed pointer sample.
pub open spec fn is_pointer_frame(chars: Seq<char>) -> bool {
    exists|p: crate::datatypes::PointerPosition| wf_pointer(p) && pointer_chars(p) == chars
}

/// An event that ends an open session: peer close, transport failure, a
/// frame that fails to decode, or a heartbeat timeout.
pub open spec fn fatal_in_open(ev: WsEvent, now: u64, last: u64) -> bool {
    match ev {
        WsEvent::CloseFrame => true,
        WsEvent::TransportError => true,
        WsEvent::Text(payload) => !is_circle_frame(payload@) && !is_pointer_frame(payload@),
        WsEvent::TimerCheck => now as int - last as int > HEARTBEAT_TIMEOUT_MS as int,
        _ => false,
    }
}

/// The state after one event, with `last` the session's heartbeat stamp.
pub open spec fn step_state(state: SessionState, ev: WsEvent, now: u64, last: u64) -> SessionState {
    match state {
        SessionState::Connecting => match ev {
            WsEvent::HandshakeComplete => SessionState::Open,
            WsEvent::CloseFrame => SessionState::Closed,
            WsEvent::TransportError => SessionState::Closed,
            _ => SessionState::Connecting,
        },
        SessionState::Open => if fatal_in_open(ev, now, last) {
            SessionState::Closing
        } else {
            SessionState::Open
        },
        SessionState::Closing => match ev {
            WsEvent::UnregisterDone => SessionState::Closed,
            _ => SessionState::Closing,
        },
        SessionState::Closed => SessionState::Closed,
    }
}

/// Whether the step emits the register action.
pub open spec fn step_registers(state: SessionState, ev: WsEvent) -> bool {
    state is Connecting && ev is HandshakeComplete
}

/// Whether the step emits the unregister action.
pub open spec fn step_unregisters(state: SessionState, ev: WsEvent, now: u64, last: u64) -> bool {
    state is Open && fatal_in_open(ev, now, last)
}

/// One session, bound to a board and holding its connection handle.
pub struct Session {
    board: u64,
    handle: u64,
    state: SessionState,
    last_heartbeat: u64,
}

impl Session {
    pub closed spec fn board(self) -> u64 {
        self.board
    }

    pub closed spec fn handle(self) -> u64 {
        self.handle
    }

    pub closed spec fn state(self) -> SessionState {
        self.state
    }

    /// When the session last heard a ping or pong.
    pub closed spec fn last_heartbeat(self) -> u64 {
        self.last_heartbeat
    }

    /// A fresh session awaiting its handshake.
    pub fn new(board: u64, handle: u64, now: u64) -> (s: Session)
        ensures
            s.board() == board,
            s.handle() == handle,
            s.state() == SessionState::Connecting,
            s.last_heartbeat() == now,
    {
        Session { board, handle, state: SessionState::Connecting, last_heartbeat: now }
    }

    pub fn get_state(&self) -> (st: SessionState)
        ensures
            st == self.state(),
    {
        self.state
    }

    /// When this session last heard a ping or pong, for scheduling timer
    /// checks with a monotonic clock.
    pub fn heartbeat_stamp(&self) -> (t: u64)
        ensures
            t == self.last_heartbeat(),
    {
        self.last_heartbeat
    }

    /// Feed one observed event at time `now` and learn what to do.
    ///
    /// The new state follows `step_state`; the heartbeat stamp is
    /// refreshed by handshake, ping and pong; and the returned actions are
    /// exactly the ones the event calls for in the state the session was
    /// in.
    pub fn on_event(&mut self, ev: WsEvent, now: u64) -> (actions: Vec<Action>)
        requires
            now >= old(self).last_heartbeat(),
        ensures
            final(self).board() == old(self).board(),
            final(self).handle() == old(self).handle(),
            final(self).state() == step_state(old(self).state(), ev, now, old(
                self,
            ).last_heartbeat()),
            final(self).last_heartbeat() == (if old(self).state() is Open && (ev is Ping || ev
                is Pong) || old(self).state() is Connecting && ev is HandshakeComplete {
                now
            } else {
                old(self).last_heartbeat()
            }),
            final(self).last_heartbeat() <= now,
            ({
                let board = old(self).board();
                let handle = old(self).handle();
                match old(self).state() {
                    SessionState::Connecting => match ev {
                        WsEvent::HandshakeComplete => actions@ =~= seq![
                            Action::Register { board, handle },
                        ],
                        _ => actions@ =~= Seq::<Action>::empty(),
                    },
                    SessionState::Open => match ev {
                        WsEvent::Ping(payload) => actions@ =~= seq![Action::SendPong(payload)],
                        WsEvent::Text(payload) => {
                            if is_circle_frame(payload@) {
                                exists|c: Circle|
                                    wf_circle(c) && circle_chars(c) == payload@ && actions@ =~= seq![
                                        Action::Persist { board, circle: c },
                                        Action::Broadcast(payload),
                                    ]
                            } else if is_pointer_frame(payload@) {
                                actions@ =~= seq![Action::Broadcast(payload)]
                            } else {
                                actions@ =~= seq![
                                    Action::Unregister { board, handle },
                                    Action::CloseSocket,
                                ]
                            }
                        },
                        WsEvent::Binary(data) => actions@ =~= seq![Action::EchoBinary(data)],
                        WsEvent::CloseFrame => actions@ =~= seq![
                            Action::Unregister { board, handle },
                            Action::CloseSocket,
                        ],
                        WsEvent::TransportError => actions@ =~= seq![
                            Action::Unregister { board, handle },
                            Action::CloseSocket,
                        ],
                        WsEvent::TimerCheck => {
                            if now as int - old(self).last_heartbeat() as int > HEARTBEAT_TIMEOUT_MS
                                as int {
                                actions@ =~= seq![
                                    Action::Unregister { board, handle },
                                    Action::CloseSocket,
                                ]
                            } else {
                                actions@ =~= Seq::<Action>::empty()
                            }
                        },
                        _ => actions@ =~= Seq::<Action>::empty(),
                    },
                    SessionState::Closing => actions@ =~= Seq::<Action>::empty(),
                    SessionState::Closed => actions@ =~= Seq::<Action>::empty(),
                }
            }),
    {
        let mut actions: Vec<Action> = Vec::new();
        match self.state {
            SessionState::Connecting => {
                match ev {
                    WsEvent::HandshakeComplete => {
                        self.state = SessionState::Open;
                        self.last_heartbeat = now;
                        actions.push(
                            Action::Register { board: self.board, handle: self.handle },
                        );
                    },
                    WsEvent::CloseFrame => {
                        self.state = SessionState::Closed;
                    },
                    WsEvent::TransportError => {
                        self.state = SessionState::Closed;
                    },
                    _ => {},
                }
            },
            SessionState::Open => {
                match ev {
                    WsEvent::Ping(payload) => {
                        self.last_heartbeat = now;
                        actions.push(Action::SendPong(payload));
                    },
                    WsEvent::Pong => {
                        self.last_heartbeat = now;
                    },
                    WsEvent::Text(payload) => {
                        match crate::wire::parse(payload.as_str()) {
                            Some(m) => {
                                proof {
                                    lemma_frame_kinds(payload@, m);
                                }
                                match m {
                                    SocketMessage::Circle(c) => {
                                        actions.push(
                                            Action::Persist { board: self.board, circle: c },
                                        );
                                        actions.push(Action::Broadcast(payload));
                                    },
                                    SocketMessage::Pointer(_) => {
                                        actions.push(Action::Broadcast(payload));
                                    },
                                }
                            },
                            None => {
                                proof {
                                    if is_circle_frame(payload@) {
                                        let c = choose|c: Circle|
                                            wf_circle(c) && circle_chars(c) == payload@;
                                        assert(wf_msg(SocketMessage::Circle(c)));
                                        assert(msg_chars(SocketMessage::Circle(c)) == payload@);
                                        assert(false);
                                    }
                                    if is_pointer_frame(payload@) {
                                        let p = choose|p: crate::datatypes::PointerPosition|
                                            wf_pointer(p) && pointer_chars(p) == payload@;
                                        assert(wf_msg(SocketMessage::Pointer(p)));
                                        assert(msg_chars(SocketMessage::Pointer(p)) == payload@);
                                        assert(false);
                                    }
                                }
                                self.state = SessionState::Closing;
                                actions.push(
                                    Action::Unregister { board: self.board, handle: self.handle },
                                );
                                actions.push(Action::CloseSocket);
                            },
                        }
                    },
                    WsEvent::Binary(data) => {
                        actions.push(Action::EchoBinary(data));
                    },
                    WsEvent::CloseFrame => {
                        self.state = SessionState::Closing;
                        actions.push(
                            Action::Unregister { board: self.board, handle: self.handle },
                        );
                        actions.push(Action::CloseSocket);
                    },
                    WsEvent::TransportError => {
                        self.state = SessionState::Closing;
                        actions.push(
                            Action::Unregister { board: self.board, handle: self.handle },
                        );
                        actions.push(Action::CloseSocket);
                    },
                    WsEvent::TimerCheck => {
                        if now - self.last_heartbeat > HEARTBEAT_TIMEOUT_MS {
                            self.state = SessionState::Closing;
                            actions.push(
                                Action::Unregister { board: self.board, handle: self.handle },
                            );
                            actions.push(Action::CloseSocket);
                        }
                    },
                    _ => {},
                }
            },
            SessionState::Closing => {
                match ev {
                    WsEvent::UnregisterDone => {
                        self.state = SessionState::Closed;
                    },
                    _ => {},
                }
            },
            SessionState::Closed => {},
        }
        actions
    }
}

/// A text frame cannot render both a circle and a pointer, and a parsed
/// message settles which of the two (if either) its frame is.
proof fn lemma_frame_kinds(chars: Seq<char>, m: SocketMessage)
    requires
        wf_msg(m),
        msg_chars(m) == chars,
    ensures
        m is Circle ==> is_circle_frame(chars) && !is_pointer_frame(chars),
        m is Pointer ==> is_pointer_frame(chars) && !is_circle_frame(chars),
{
    match m {
        SocketMessage::Circle(c) => {
            assert(is_circle_frame(chars));
            if is_pointer_frame(chars) {
                let p = choose|p: crate::datatypes::PointerPosition|
                    wf_pointer(p) && pointer_chars(p) == chars;
                crate::wire::lemma_circle_pointer_distinct(c, p);
            }
        },
        SocketMessage::Pointer(p) => {
            assert(is_pointer_frame(chars));
            if is_circle_frame(chars) {
                let c = choose|c: Circle| wf_circle(c) && circle_chars(c) == chars;
                crate::wire::lemma_circle_pointer_distinct(c, p);
            }
        },
    }
}

/// Running a whole event trace from a fresh session.
pub open spec fn run_state(
    s0: SessionState,
    last0: u64,
    evs: Seq<(WsEvent, u64)>,
) -> SessionState
    decreases evs.len(),
{
    if evs.len() == 0 {
        s0
    } else {
        step_state(
            run_state(s0, last0, evs.drop_last()),
            evs.last().0,
            evs.last().1,
            run_last(s0, last0, evs.drop_last()),
        )
    }
}

/// The heartbeat stamp along the trace.
pub open spec fn run_last(s0: SessionState, last0: u64, evs: Seq<(WsEvent, u64)>) -> u64
    decreases evs.len(),
{
    if evs.len() == 0 {
        last0
    } else {
        let pre_state = run_state(s0, last0, evs.drop_last());
        let pre_last = run_last(s0, last0, evs.drop_last());
        let ev = evs.last().0;
        let now = evs.last().1;
        if pre_state is Open && (ev is Ping || ev is Pong) || pre_state is Connecting && ev
            is HandshakeComplete {
            now
        } else {
            pre_last
        }
    }
}

/// How many register actions the trace emits.
pub open spec fn run_registers(s0: SessionState, last0: u64, evs: Seq<(WsEvent, u64)>) -> nat
    decreases evs.len(),
{
    if evs.len() == 0 {
        0
    } else {
        run_registers(s0, last0, evs.drop_last()) + (if step_registers(
            run_state(s0, last0, evs.drop_last()),
            evs.last().0,
        ) {
            1nat
        } else {
            0nat
        })
    }
}

/// How many unregister actions the trace emits.
pub open spec fn run_unregisters(s0: SessionState, last0: u64, evs: Seq<(WsEvent, u64)>) -> nat
    decreases evs.len(),
{
    if evs.len() == 0 {
        0
    } else {
        run_unregisters(s0, last0, evs.drop_last()) + (if step_unregisters(
            run_state(s0, last0, evs.drop_last()),
            evs.last().0,
            evs.last().1,
            run_last(s0, last0, evs.drop_last()),
        ) {
            1nat
        } else {
            0nat
        })
    }
}

/// However a session dies -- peer close, protocol error, transport fault
/// or heartbeat timeout, in any order and however often the events repeat
/// -- a fresh session unregisters at most once, and exactly once whenever
/// it registered and is no longer open.
pub proof fn lemma_unregister_exactly_once(last0: u64, evs: Seq<(WsEvent, u64)>)
    ensures
        run_registers(SessionState::Connecting, last0, evs) <= 1,
        ({
            let final_state = run_state(SessionState::Connecting, last0, evs);
            let regs = run_registers(SessionState::Connecting, last0, evs);
            let unregs = run_unregisters(SessionState::Connecting, last0, evs);
            &&& (final_state is Connecting ==> regs == 0 && unregs == 0)
            &&& (final_state is Open ==> regs == 1 && unregs == 0)
            &&& (final_state is Closing ==> regs == 1 && unregs == 1)
            &&& (final_state is Closed ==> regs == unregs)
            &&& unregs <= 1
        }),
    decreases evs.len(),
{
    if evs.len() > 0 {
        lemma_unregister_exactly_once(last0, evs.drop_last());
    }
}

} // verus!
