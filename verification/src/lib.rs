//! A minimal HTTP/1.1 connection dispatcher core: request/response framing,
//! segment-based routing with named captures, connection-handler parsing,
//! and admission control with round-robin lane assignment.
//!
//! Everything here is plain computation over owned values; the surrounding
//! program performs the socket I/O and feeds the results in.

pub mod admission;
pub mod conn;
pub mod dog;
pub mod frame;
pub mod request;
pub mod response;
pub mod router;
pub mod strmap;
pub mod text;
pub mod user;
