//! A verified key-value server core: the wire codec, the per-connection
//! request/response loop, the storage model, and the worker-pool policy.
//!
//! The process-facing pieces (sockets, threads) live outside this crate and
//! drive these functions; everything that decides or computes is here.

pub mod codec;
pub mod parse;
pub mod pool;
pub mod protocol;
pub mod server;
pub mod session;
pub mod store;
