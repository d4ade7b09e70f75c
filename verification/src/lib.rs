//! Real-time synchronization engine for a collaborative drawing surface.
//!
//! Multiple clients attached to the same board see each other's shapes and
//! pointer positions live.  The server side keeps a per-board registry of
//! connection handles and fans every inbound message out to the other
//! connections on the same board; the client side turns sparse remote pointer
//! samples into a smooth cursor trail with a Catmull-Rom interpolator driven
//! by a fixed-rate animation clock.  Everything here is plain data and
//! decision logic: sockets, persistence and rendering live outside and talk
//! to this crate through values.

pub mod client_board;
pub mod cursor;
pub mod datatypes;
pub mod hub;
pub mod registry;
pub mod session;
pub mod spline;
pub mod wire;
