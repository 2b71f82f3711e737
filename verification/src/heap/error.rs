//! Errors at the heap edge. Domain leaves stay on runs and extents.

use vstd::prelude::*;

use crate::heap::extent::ExtentError;
use crate::heap::run::RunError;

verus! {

#[derive(Clone, Copy, Debug, PartialEq, Eq, Structural)]
pub enum HeapError {
    InvalidHeap,
    InvalidRunPointer,
    InvalidExtentPointer,
    DoubleFree,
    InvalidMetadata,
    MissingExtent,
}

/// Metadata or a caller's pointer is broken beyond repair: the process must stop.
#[derive(Clone, Copy, Debug, PartialEq, Eq, Structural)]
pub struct Abort;

/// The heap-level error that a run error becomes.
pub open spec fn run_error_of(error: RunError) -> HeapError {
    match error {
        RunError::InvalidPointer => HeapError::InvalidRunPointer,
        RunError::OutOfRange => HeapError::InvalidRunPointer,
        RunError::DoubleFree => HeapError::DoubleFree,
    }
}

/// The heap-level error that an extent error becomes.
pub open spec fn extent_error_of(error: ExtentError) -> HeapError {
    match error {
        ExtentError::InvalidPointer => HeapError::InvalidExtentPointer,
        ExtentError::DoubleFree => HeapError::DoubleFree,
    }
}

impl From<RunError> for HeapError {
    fn from(error: RunError) -> (converted: Self) {
        match error {
            RunError::InvalidPointer => HeapError::InvalidRunPointer,
            RunError::OutOfRange => HeapError::InvalidRunPointer,
            RunError::DoubleFree => HeapError::DoubleFree,
        }
    }
}

impl vstd::std_specs::convert::FromSpecImpl<RunError> for HeapError {
    open spec fn obeys_from_spec() -> bool {
        true
    }

    open spec fn from_spec(error: RunError) -> Self {
        run_error_of(error)
    }
}

impl From<ExtentError> for HeapError {
    fn from(error: ExtentError) -> (converted: Self) {
        match error {
            ExtentError::InvalidPointer => HeapError::InvalidExtentPointer,
            ExtentError::DoubleFree => HeapError::DoubleFree,
        }
    }
}

impl vstd::std_specs::convert::FromSpecImpl<ExtentError> for HeapError {
    open spec fn obeys_from_spec() -> bool {
        true
    }

    open spec fn from_spec(error: ExtentError) -> Self {
        extent_error_of(error)
    }
}

} // verus!
