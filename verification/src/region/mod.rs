//! Cortical regions: identifiers and the temporal memory.
pub mod hierarchy;
pub mod region;
pub mod spatial_pooler;
pub mod temporal_memory;

pub use self::region::RegionId;
pub use self::temporal_memory::TemporalMemory;
