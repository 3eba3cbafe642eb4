//! Identifier of a cortical region.
use vstd::prelude::*;

verus! {

/// Stable identifier of a region inside a region hierarchy.
#[derive(Debug, Clone, Copy, PartialEq, Eq, Hash, Structural)]
pub struct RegionId(pub u32);

} // verus!
