//! A protocol-aware reverse proxy core for a length-prefixed binary
//! wire protocol: the codec for its primitive types and framing, the
//! immutable hostname-to-backend routing table, the synthesized status
//! response, and the per-connection session state machine that decides
//! whether a connection is answered locally or handed off to a backend.
//! All socket work stays with the caller, which performs the `Step`
//! each session transition returns.

pub mod codec;
pub mod routing;
pub mod session;
pub mod status;
