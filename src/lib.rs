//! Session and world server core: a registry of connected sessions, the
//! proximity ("aura") engine that keeps mutual visibility between them, and
//! the router that decides which sessions receive which message.
//!
//! The library is a deterministic state machine. Every operation takes the
//! decoded input of one event, updates the registry, and returns the list of
//! effects (outgoing messages and hook notifications) for the caller to carry
//! out on sockets and on the scripting host.
//!
//! Sessions leave in two steps at the end of a tick: `disconnect_flagged`
//! tells their peers and the scripting host while they are still registered,
//! and `purge_departed`, run once those effects are carried out, removes them
//! and broadcasts the new user count.
pub mod bureau;
pub mod geometry;
pub mod handshake;
pub mod message;
pub mod registry;

pub use bureau::{Bureau, BureauOptions};
pub use geometry::{Mat3, Position, Vec3};
pub use handshake::{handshake_step, HandshakeRead, PendingStep};
pub use message::{Effect, Message, NO_TARGET};
pub use registry::{NoSuchSession, RegisterError, Session, SessionRegistry};
