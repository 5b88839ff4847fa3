//! A minimal single-node message queue: named topics holding append-only
//! sequences of keyed byte items, named consumer groups tracking read
//! offsets, bounded batch reads, and a binary wire codec for the
//! operations and batches that cross the network boundary.

pub mod codec;
pub mod error;
pub mod parse;
pub mod queue;
pub mod session;
