//! Lock-free-style FIFO queues, verified.
//!
//! Two queue engines share one contract: values come out in the order they
//! went in, none is lost and none is duplicated, and taking from an empty
//! queue reports absence instead of blocking.
//!
//! * [`linked`] holds a dummy-node singly-linked queue whose nodes live in an
//!   arena with stable indices; retired nodes are reclaimed through the
//!   epoch scheme in [`epoch`], never while a pinned guard could still
//!   reference them.
//! * [`seg`] holds a segmented queue that batches values into fixed-capacity
//!   blocks, tracks each slot with write/read/destroy flags, and frees a
//!   block exactly once, after every written slot has been read.
//! * [`contract`] states the shared sequence-level laws (order kept,
//!   multiset conserved) that both engines' contracts are written against.

pub mod contract;
pub mod epoch;
pub mod linked;
pub mod seg;
