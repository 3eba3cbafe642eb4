//! The layers of a six-layer cortical microcircuit and their per-layer
//! shape.
use vstd::prelude::*;

verus! {

/// One of the cortical layers (L1 is kept as apical context; L2/3 is one
/// associative layer).
#[derive(Debug, Clone, Copy, PartialEq, Eq, Hash)]
pub enum CorticalLayer {
    /// Apical dendrites, contextual feedback.
    L1,
    /// Associative, intracortical.
    L2_3,
    /// Thalamic input recipient.
    L4,
    /// Cortical output.
    L5,
    /// Thalamic feedback.
    L6,
}

impl CorticalLayer {
    /// All layers in canonical order (top-down → bottom-up).
    pub const ALL: [CorticalLayer; 5] = [
        CorticalLayer::L1,
        CorticalLayer::L2_3,
        CorticalLayer::L4,
        CorticalLayer::L5,
        CorticalLayer::L6,
    ];

    /// Position of the layer in canonical order, which is also its index in
    /// every per-layer vector of a column.
    pub fn index(self) -> (r: usize)
        ensures
            r < 5,
            r == match self {
                CorticalLayer::L1 => 0usize,
                CorticalLayer::L2_3 => 1usize,
                CorticalLayer::L4 => 2usize,
                CorticalLayer::L5 => 3usize,
                CorticalLayer::L6 => 4usize,
            },
    {
        match self {
            CorticalLayer::L1 => 0,
            CorticalLayer::L2_3 => 1,
            CorticalLayer::L4 => 2,
            CorticalLayer::L5 => 3,
            CorticalLayer::L6 => 4,
        }
    }
}

/// Layer-specific properties.
#[derive(Debug, Clone)]
pub struct LayerSpec {
    /// Width of the spiking population for this layer.
    pub width: usize,
    /// Whether this layer receives direct sensory input.
    pub is_input: bool,
    /// Whether this layer is the column's output layer.
    pub is_output: bool,
}

impl LayerSpec {
    /// The default column: L1 16 wide, L2/3 and L4 64 wide, L5 and L6 32
    /// wide; L4 takes the sensory input and L5 is the output layer.
    pub fn default_column() -> (r: [LayerSpec; 5])
        ensures
            r[0].width == 16 && !r[0].is_input && !r[0].is_output,
            r[1].width == 64 && !r[1].is_input && !r[1].is_output,
            r[2].width == 64 && r[2].is_input && !r[2].is_output,
            r[3].width == 32 && !r[3].is_input && r[3].is_output,
            r[4].width == 32 && !r[4].is_input && !r[4].is_output,
    {
        [
            LayerSpec { width: 16, is_input: false, is_output: false },
            LayerSpec { width: 64, is_input: false, is_output: false },
            LayerSpec { width: 64, is_input: true, is_output: false },
            LayerSpec { width: 32, is_input: false, is_output: true },
            LayerSpec { width: 32, is_input: false, is_output: false },
        ]
    }
}

} // verus!
