//! The thalamic gate: its three outcomes and what each lets through to
//! cortex. The salience that decides the outcome is computed outside the
//! library.
use crate::rng::seeded_rng;
use crate::sdr::Sdr;
use rand::rngs::StdRng;
use vstd::prelude::*;

verus! {

/// Outcome of a thalamic gating decision.
#[derive(Debug, Clone, Copy, PartialEq, Eq, Structural)]
pub enum GatingDecision {
    /// Forwarded verbatim to cortex.
    Forward,
    /// Attenuated (active bits scaled down).
    Attenuate,
    /// Completely blocked — cortex never sees this input.
    Block,
}

/// The signal that reaches cortex. On `Forward` the whole input goes on;
/// on `Attenuate` half of its active bits, rounded up, picked at random
/// with the lowest active bit as seed; on `Block` nothing.
pub fn gate(decision: GatingDecision, input: Sdr) -> (r: Option<Sdr>)
    ensures
        decision == GatingDecision::Forward ==> (r matches Some(s) && s@ == input@),
        decision == GatingDecision::Attenuate ==> (r matches Some(s) && s@.subset_of(input@)
            && s@.len() == (input@.len() + 1) / 2),
        decision == GatingDecision::Block ==> r is None,
{
    match decision {
        GatingDecision::Forward => Some(input),
        GatingDecision::Attenuate => {
            let mut s = input;
            let count = s.active_count();
            let keep = (count + 1) / 2;
            let bits = s.active_bits();
            let seed: u64 = if bits.len() > 0 {
                bits[0] as u64
            } else {
                0
            };
            let mut rng: StdRng = seeded_rng(seed);
            s.sparsify_to(&mut rng, keep);
            Some(s)
        },
        GatingDecision::Block => None,
    }
}

} // verus!
