use vstd::prelude::*;

verus! {

/// Whether the bytes behind a fresh allocation are already zero.
#[derive(Clone, Copy, Debug, PartialEq, Eq, Structural)]
pub enum ZeroStatus {
    KnownZeroed,
    NeedsZeroing,
}

/// A block handed out together with what is known of its bytes.
#[derive(Clone, Copy, Debug, PartialEq, Eq, Structural)]
pub struct Allocation {
    pub ptr: usize,
    pub zero_status: ZeroStatus,
}

impl Allocation {
    pub fn new(ptr: usize, zero_status: ZeroStatus) -> (allocation: Self)
        requires
            ptr != 0,
        ensures
            allocation == (Allocation { ptr, zero_status }),
    {
        Self { ptr, zero_status }
    }

    pub fn ptr(self) -> (ptr: usize)
        ensures
            ptr == self.ptr,
    {
        self.ptr
    }

    pub fn zero_status(self) -> (status: ZeroStatus)
        ensures
            status == self.zero_status,
    {
        self.zero_status
    }
}

} // verus!
