//! Size-class allocator: verified metadata, lifecycle, and routing logic.
//!
//! Addresses are plain integers. The crate decides which block, run, extent, or
//! heap an operation touches; mapping pages, moving bytes, and thread-local
//! storage stay with the program around it.

pub mod allocation;
pub mod allocator;
pub mod arena;
pub mod cabi;
pub mod config;
pub mod decimal;
pub mod extent;
pub mod heap;
pub mod layout;
pub mod memory;
pub mod process;
pub mod rng;
pub mod shared;
pub mod size_class;
pub mod table;
pub mod workloads;
