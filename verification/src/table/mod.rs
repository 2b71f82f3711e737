//! Slots for the heaps of threads: lifecycle, inboxes, batches of frees, and a cache of
//! page owners.

pub mod batch;
pub mod directory;
pub mod inbox;
pub mod page_cache;
pub mod remote;
pub mod slot;
pub mod state;
