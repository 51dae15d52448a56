//! Verified core of a packet-capture traffic analyser.
//!
//! The library turns an opaque byte buffer holding a capture file into a
//! validated, offset-addressed packet index, models the host/accelerator
//! boundary that evaluates a per-packet filter predicate, and aggregates
//! passing packets into a source/destination traffic matrix whose value is
//! independent of how the work was partitioned.

pub mod aggregate;
pub mod offload;
pub mod reader;
