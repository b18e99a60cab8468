//! A TCP echo service in two variants: a blocking one that hands each
//! connection to a fixed pool of workers, and a readiness-multiplexed one that
//! serves every connection from a single poll loop.
//!
//! This crate holds the decisions of both variants as verified functions:
//! validating the listening address, draining and echoing one readiness burst,
//! minting connection tokens, and planning a worker pool's start and teardown.
//! The sockets, the poll loop and the threads are driven by the caller.

pub mod addr;
pub mod burst;
pub mod pool;
pub mod table;
