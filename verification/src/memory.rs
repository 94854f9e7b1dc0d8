//! Physical memory.
use vstd::prelude::*;

verus! {

#[derive(Debug, Clone, Copy)]
pub struct MemorySnapshot {
    /// Physical memory that the system can see, in bytes.
    pub total_bytes: u64,
    /// What is available now, in bytes, pages that can be reused at once among it.
    pub available_bytes: u64,
}

impl MemorySnapshot {
    pub open spec fn used(self) -> u64 {
        if self.available_bytes <= self.total_bytes {
            (self.total_bytes - self.available_bytes) as u64
        } else {
            0
        }
    }

    /// What is not available; none if more were available than there is.
    pub fn used_bytes(&self) -> (r: u64)
        ensures
            r == self.used(),
            self.available_bytes <= self.total_bytes ==> r + self.available_bytes
                == self.total_bytes,
            self.total_bytes < self.available_bytes ==> r == 0,
    {
        self.total_bytes.saturating_sub(self.available_bytes)
    }
}

} // verus!
