//! Why a 2D drawing was refused.
use vstd::prelude::*;

verus! {

/// Which bound was passed.
#[derive(Clone, Copy, PartialEq, Eq, Structural, Debug)]
pub enum Limit {
    PreparedScratch,
    TargetExtent,
}

/// What kind of resource is missing.
#[derive(Clone, Copy, PartialEq, Eq, Structural, Debug)]
pub enum ResourceKind {
    Path,
    Image,
    Dashes,
}

/// A refusal of the 2D renderer.
#[derive(Clone, Copy, PartialEq, Eq, Structural, Debug)]
#[allow(inconsistent_fields)]
pub enum Error {
    Allocation,
    Cancelled,
    LimitExceeded { limit: Limit, ceiling: u64 },
    UnknownResource { kind: ResourceKind, index: u32 },
}

/// A refusal of the image model.
#[derive(Clone, Copy, PartialEq, Eq, Structural, Debug)]
pub enum ImageFault {
    Allocation,
    Overflow,
    ZeroExtent,
    PitchTooSmall,
    BufferTooShort,
    Other,
}

/// What a refusal of the image model is to the caller of a drawing: running out of memory is a decision about
/// resources, a size that cannot be is a limit, and anything else is an image that is not there.
pub fn from_core(fault: ImageFault, max_extent: u64) -> (error: Error)
    ensures
        error == (match fault {
            ImageFault::Allocation => Error::Allocation,
            ImageFault::Other => Error::UnknownResource { kind: ResourceKind::Image, index: 0 },
            _ => Error::LimitExceeded { limit: Limit::TargetExtent, ceiling: max_extent },
        }),
{
    match fault {
        ImageFault::Allocation => Error::Allocation,
        ImageFault::Other => Error::UnknownResource { kind: ResourceKind::Image, index: 0 },
        _ => Error::LimitExceeded { limit: Limit::TargetExtent, ceiling: max_extent },
    }
}

} // verus!
