//! A long-polling event gateway for a chat-bot platform.
//!
//! The crate fetches batches of remote events, delivers each event in
//! ascending id order to a dynamic set of registered handlers, and keeps a
//! small durable key-value store that handlers use to persist counters
//! across restarts.  All decision logic lives here, verified; the host
//! process supplies the I/O (HTTP transport, the state file, the clock).

pub mod api;
pub mod bot;
pub mod codec;
pub mod poll;
pub mod registry;
pub mod sampler;
pub mod state;
pub mod strutil;

use vstd::prelude::*;

verus! {

/// The four kinds of failure the gateway distinguishes.  No kind ever
/// converts implicitly into another: startup errors abort, transient fetch
/// errors become an empty batch, handler errors are swallowed at the
/// dispatch boundary, and persistence errors are logged and dropped.
#[derive(Clone, Copy, PartialEq, Eq, Structural, Debug)]
pub enum ErrorKind {
    Startup,
    TransientFetch,
    HandlerLocal,
    Persistence,
}

} // verus!
