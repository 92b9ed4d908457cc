//! Gateway core for a REST-to-RPC translator: each HTTP endpoint is turned
//! into one request/reply exchange with a backend compute service that speaks
//! a compact binary tuple encoding. This crate holds the verified heart of
//! that translation: the wire codec with its dual decode path (typed result
//! first, error string second), the per-endpoint request builders, and the
//! response shaping rules. Sockets and HTTP live outside, in the thin
//! unverified shell around this library.

pub mod decode;
pub mod encode;
pub mod respond;
pub mod translate;
pub mod types;
pub mod wire;
