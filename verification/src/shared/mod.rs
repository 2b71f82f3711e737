//! One heap behind one lock: runs that belong to all threads or to one, large blocks, and
//! a bounded queue of frees for each thread.

pub mod heap;
pub mod registry;
pub mod run;
