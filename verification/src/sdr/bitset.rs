//! Bit-level SDR helpers.
use vstd::prelude::*;
use super::Sdr;

verus! {

/// Count active bits in an SDR; the same as `sdr.active_count()`, as a
/// free function.
pub fn active_count(sdr: &Sdr) -> (r: usize)
    ensures
        r == sdr@.len(),
{
    sdr.active_count()
}

} // verus!
