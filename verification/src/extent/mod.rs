//! Extents of one shared heap: reserved slots, retained mappings, and the allocator over
//! both.

pub mod allocator;
pub mod mapping_cache;
pub mod slot_store;
pub mod table;
