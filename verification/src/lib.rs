//! # nexus-cog-neural
//!
//! Brain-like cognitive architecture: the verified core. Every state in the
//! brain is a 2048-bit sparse distributed representation ([`Sdr`]); spike
//! trains carry the temporal code. The wiring of the column and region
//! hierarchies, the episodic store, neurogenesis, the sensorimotor loop,
//! temporal memory and the thalamic gate decide on integer and boolean
//! state whose contracts are proved here.
pub mod astrocyte;
pub mod attention;
pub mod cortex;
pub mod cortical_column;
pub mod graph;
pub mod hierarchy;
pub mod hippocampus;
pub mod neurogenesis;
pub mod region;
pub mod replay;
pub mod rng;
pub mod sdr;
pub mod sensorimotor;
pub mod sleep;
pub mod spike;
pub mod synapse;
pub mod thalamus;
pub mod working_memory;

pub use cortex::{spike_to_sdr, spike_train_to_sdr};
pub use cortical_column::{CorticalLayer, LayerSpec};
pub use hierarchy::{ColumnId, Connection};
pub use hippocampus::NullEpisodeSink;
pub use neurogenesis::NeurogenicVerdict;
pub use region::{RegionId, TemporalMemory};
pub use sdr::encoder::{bucket_bits, CategoryEncoder, Encoder, SequenceEncoder};
pub use sdr::{LabelledSdr, Sdr, SDR_WIDTH};
pub use sensorimotor::LoopPhase;
pub use sleep::SleepCycle;
pub use spike::{SpikeTrain, SPIKE_WINDOW};
pub use synapse::ThreeFactorHebbianRule;
pub use thalamus::GatingDecision;
