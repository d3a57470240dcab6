//! Pre-allocated storage with constant-time LRU tracking.
//!
//! One array of slots serves both as a slab allocator with a LIFO free list and
//! as an intrusive doubly-linked list that keeps the stored values in recency
//! order. A value is reached through the handle that its insertion returned,
//! which stays valid until the value is removed.
//!
//! Every operation of [`LruSlab`] is specified as a step of [`SlabModel`], the
//! mathematical description of the handles and values that a slab holds. The
//! module [`laws`] proves what follows for whole runs of the slab: the order in
//! which values are read back and evicted, the reuse of handles, and the
//! bookkeeping of length and capacity.

pub mod iter;
pub mod laws;
mod links;
pub mod model;
pub mod slab;

pub use iter::Iter;
pub use model::SlabModel;
pub use model::NONE;
pub use slab::LruSlab;
