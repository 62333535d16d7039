//! The session and command-dispatch engine of a fleet coordinator.
//!
//! A coordinator tracks which remote agents are reachable, queues commands for
//! them, matches the results they report to the commands that produced them and
//! keeps an append-only history of results and screenshots. Everything here is
//! a sequential state machine over plain values: every operation takes the
//! current time as an argument (or reads it once, at its entry), and its
//! contract states the next state and the answer as a function of the state
//! before.

pub mod clock;
pub mod coordinator;
pub mod dispatcher;
pub mod ident;
pub mod laws;
pub mod lifecycle;
pub mod model;
pub mod protocol;
pub mod registry;
pub mod store;
pub mod text;
