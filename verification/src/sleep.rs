//! The sleep-cycle controller.
use vstd::prelude::*;

verus! {

/// Sleep cycle: NREM replay of hippocampal episodes followed by REM
/// perturbation of the cortical columns. It carries no state of its own.
#[derive(Debug, Default)]
pub struct SleepCycle;

impl SleepCycle {
    /// Create a new sleep-cycle controller.
    pub fn new() -> (r: SleepCycle)
        ensures
            r == SleepCycle,
    {
        SleepCycle
    }
}

} // verus!
