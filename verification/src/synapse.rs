//! The plasticity rule of the synapse model.
use vstd::prelude::*;

verus! {

/// Three-factor Hebbian rule — `Δw ∝ pre × post × dopamine`. `pre` and
/// `post` are spike booleans; dopamine is the local modulator
/// concentration.
#[derive(Debug, Clone, Copy, Default)]
pub struct ThreeFactorHebbianRule;

} // verus!
