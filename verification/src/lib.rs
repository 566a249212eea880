//! A persistent key-value map that lives entirely inside a caller-provided,
//! byte-addressable linear memory region.
//!
//! The engine stores entries as fixed-width slots inside a page-addressed
//! memory window, keeps them sorted by the serialized key's byte order, and
//! supports pluggable serialization through the [`storable::Storable`]
//! capability. Several independent maps can share one physical region through
//! disjoint [`memory::MemoryWindow`]s.

pub mod byte_order;
pub mod codec;
pub mod errors;
pub mod laws;
pub mod map;
pub mod memory;
pub mod profile;
pub mod storable;
