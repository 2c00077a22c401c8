//! The ways an allocator operation can fail.
use vstd::prelude::*;

verus! {

/// Why an allocation or a free did not succeed.
#[derive(Debug, Clone, Copy, PartialEq, Eq, Structural)]
pub enum AllocErr {
    /// A size computation does not fit in a machine word.
    Overflow,
    /// The block source could not provide usable memory.
    OutOfMemory,
    /// Memory from the block source is not aligned to the slot alignment.
    InvalidAlignment,
    /// The slot is already free.
    DoubleFree,
    /// The pointer does not lie in a slot handed out by this pool.
    InvalidPointer,
    /// The pointer lies inside a slot but not at its start.
    MisalignedFree,
    /// A type is larger, or more strictly aligned, than the pool's slots.
    InvalidSizeOrAlignement,
}

impl AllocErr {
    /// The human-readable description of the error.
    pub fn message(&self) -> (r: &'static str)
        ensures
            *self == AllocErr::Overflow ==> r@ == "allocation size overflow"@,
            *self == AllocErr::OutOfMemory ==> r@ == "out of memory"@,
            *self == AllocErr::InvalidAlignment ==> r@ == "invalid memory alignment"@,
            *self == AllocErr::DoubleFree ==> r@ == "attempted to free memory more than once"@,
            *self == AllocErr::InvalidPointer ==> r@
                == "free() called with a pointer that is not owned by this pool"@,
            *self == AllocErr::MisalignedFree ==> r@ == "free() called with a misaligned pointer"@,
            *self == AllocErr::InvalidSizeOrAlignement ==> r@
                == "object size or alignment exceeds the pool's slot size or alignment"@,
    {
        match self {
            AllocErr::Overflow => "allocation size overflow",
            AllocErr::OutOfMemory => "out of memory",
            AllocErr::InvalidAlignment => "invalid memory alignment",
            AllocErr::DoubleFree => "attempted to free memory more than once",
            AllocErr::InvalidPointer => "free() called with a pointer that is not owned by this pool",
            AllocErr::MisalignedFree => "free() called with a misaligned pointer",
            AllocErr::InvalidSizeOrAlignement => {
                "object size or alignment exceeds the pool's slot size or alignment"
            },
        }
    }
}

} // verus!
