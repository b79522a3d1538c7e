//! Sans-I/O core of a small non-blocking HTTP front end: an accept loop with
//! idle backoff, and an incremental parser for the request head of each
//! accepted connection.
//!
//! Nothing in this crate touches a socket or a clock. A driver performs the
//! outside work (accepting, reading, reading the time) and hands plain values
//! to the state machines defined here, which answer with the next thing to do.

pub mod accept;
pub mod backoff;
pub mod connection;
pub mod framing;
pub mod request;
pub mod server;
pub mod text;
