//! The phases of the perception → action → perception cycle and the order
//! in which the sensorimotor loop steps through them.
use vstd::prelude::*;

verus! {

/// One step of the perception → action → perception cycle.
#[derive(Debug, Clone, Copy, PartialEq, Eq, Structural)]
pub enum LoopPhase {
    /// Reading sensory input.
    Sensing,
    /// Cortex is generating predictions.
    Predicting,
    /// Comparator is computing prediction error.
    Comparing,
    /// Basal ganglia is selecting an action.
    Acting,
    /// Action is being executed; effect will be sensed next tick.
    Effecting,
    /// NREM/REM sleep — offline consolidation, no sensory input.
    /// Loops back to `Sensing` when the sleep cycle ends.
    Sleeping,
}

impl Default for LoopPhase {
    /// A new loop starts in `Sensing`.
    fn default() -> (r: Self)
        ensures
            r == LoopPhase::Sensing,
    {
        LoopPhase::Sensing
    }
}

/// The phase that follows `current` after one comparator step.
pub open spec fn spec_next_phase(current: LoopPhase) -> LoopPhase {
    match current {
        LoopPhase::Sensing => LoopPhase::Predicting,
        LoopPhase::Predicting => LoopPhase::Comparing,
        LoopPhase::Comparing => LoopPhase::Acting,
        LoopPhase::Acting => LoopPhase::Effecting,
        LoopPhase::Effecting => LoopPhase::Sensing,
        LoopPhase::Sleeping => LoopPhase::Sensing,
    }
}

/// The phase reached from `phase` after `steps` comparator steps.
pub open spec fn phase_after(phase: LoopPhase, steps: nat) -> LoopPhase
    decreases steps,
{
    if steps == 0 {
        phase
    } else {
        spec_next_phase(phase_after(phase, (steps - 1) as nat))
    }
}

/// The phase that follows `current`: sensing, predicting, comparing,
/// acting and effecting in turn, then sensing again; sleep wakes into
/// sensing.
pub fn next_phase(current: LoopPhase) -> (r: LoopPhase)
    ensures
        r == spec_next_phase(current),
{
    match current {
        LoopPhase::Sensing => LoopPhase::Predicting,
        LoopPhase::Predicting => LoopPhase::Comparing,
        LoopPhase::Comparing => LoopPhase::Acting,
        LoopPhase::Acting => LoopPhase::Effecting,
        LoopPhase::Effecting => LoopPhase::Sensing,
        LoopPhase::Sleeping => LoopPhase::Sensing,
    }
}

/// Every waking phase comes back to itself after five steps, and never
/// earlier; no step ever leads into sleep; sleep wakes into sensing.
pub proof fn lemma_loop_is_a_cycle(phase: LoopPhase, steps: nat)
    ensures
        phase != LoopPhase::Sleeping ==> phase_after(phase, 5) == phase,
        phase != LoopPhase::Sleeping && 0 < steps < 5 ==> phase_after(phase, steps) != phase,
        steps > 0 ==> phase_after(phase, steps) != LoopPhase::Sleeping,
        spec_next_phase(LoopPhase::Sleeping) == LoopPhase::Sensing,
    decreases steps,
{
    reveal_with_fuel(phase_after, 6);
    if steps > 1 {
        lemma_loop_is_a_cycle(phase, (steps - 1) as nat);
    }
}

} // verus!
