//! A priority-steerable bulk file transfer library.
//!
//! A server offers a fixed catalog of files; a client chooses, round by
//! round, which files to fetch and at what relative weight. Files travel
//! in fixed-size chunks, and a weighted round-robin scheduler gives a
//! file with weight 10 ten chunks per pass where a weight-1 file gets one.
//!
//! This crate holds the verified core: the wire codec for the three packet
//! kinds (catalog, priority vector, chunk), the priority-vector merge, the
//! transfer scheduler and its per-connection session state machine, and the
//! model of the server's bounded worker pool. Socket and file I/O live
//! outside, driven by the session state machine's actions.

pub mod bytes_be;
pub mod catalog;
pub mod chunk;
pub mod control;
pub mod human_size;
pub mod pool;
pub mod priority_list;
pub mod schedule;
pub mod session;
