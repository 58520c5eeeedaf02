//! The decisions of a transparent interceptor for HTTP and HTTPS traffic:
//! which host a connection is meant for, whether the rules send it through
//! the upstream SOCKS5 proxy, and what to say to that proxy.
//!
//! Nothing here touches a socket. The caller reads and writes; the library
//! is handed bytes and answers with what to do next.

pub mod http;
pub mod origdst;
pub mod proxy;
pub mod rule;
pub mod rules;
pub mod socks5;
pub mod target;
pub mod text;
pub mod tls;
