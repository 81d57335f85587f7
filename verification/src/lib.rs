//! Verified core of an HTTP/1.1 connection pipeline: request-head and
//! chunked-body framing, body-decoder state machines, WebSocket-upgrade
//! classification, HTTPS-redirect synthesis, PEM material selection, and the
//! bookkeeping that lets many connections make progress independently.

pub mod body;
pub mod bytes;
pub mod chunked;
pub mod head;
pub mod headers;
pub mod pem;
pub mod pool;
pub mod redirect;
pub mod response;
pub mod upgrade;
