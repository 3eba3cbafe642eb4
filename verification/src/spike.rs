//! Spike-based temporal coding: one neuron's spike train over a fixed
//! window of discrete time steps.
use vstd::prelude::*;
use crate::sdr::counting::{index_set, lemma_index_set_finite, lemma_index_set_step};

verus! {

/// Width of a spike train — number of discrete time steps per simulation tick.
pub const SPIKE_WINDOW: usize = 32;

/// One neuron's spike train over [`SPIKE_WINDOW`] time steps.
#[derive(Debug, Clone, PartialEq)]
pub struct SpikeTrain {
    /// `spikes[t] == true` iff the neuron fired at step `t`.
    pub spikes: Vec<bool>,
}

impl SpikeTrain {
    /// The time steps at which the neuron fired.
    pub open spec fn fired(&self) -> Set<usize> {
        index_set(self.spikes@.len() as int, |t: usize| self.spikes@[t as int])
    }

    /// Empty spike train (silence) over the full window.
    pub fn silent() -> (r: SpikeTrain)
        ensures
            r.spikes@ == Seq::new(SPIKE_WINDOW as nat, |t: int| false),
    {
        let mut spikes: Vec<bool> = Vec::new();
        let mut t: usize = 0;
        while t < SPIKE_WINDOW
            invariant
                t <= SPIKE_WINDOW,
                spikes@ == Seq::new(t as nat, |k: int| false),
            decreases SPIKE_WINDOW - t,
        {
            spikes.push(false);
            t += 1;
            assert(spikes@ =~= Seq::new(t as nat, |k: int| false));
        }
        SpikeTrain { spikes }
    }

    /// First-spike latency: the earliest step at which the neuron fired,
    /// or `None` if it never fired.
    pub fn first_spike(&self) -> (r: Option<usize>)
        ensures
            match r {
                Some(t) => t < self.spikes@.len() && self.spikes@[t as int] && forall|k: int|
                    0 <= k < t ==> !self.spikes@[k],
                None => forall|k: int| 0 <= k < self.spikes@.len() ==> !self.spikes@[k],
            },
    {
        let mut t: usize = 0;
        while t < self.spikes.len()
            invariant
                t <= self.spikes@.len(),
                forall|k: int| 0 <= k < t ==> !self.spikes@[k],
            decreases self.spikes@.len() - t,
        {
            if self.spikes[t] {
                return Some(t);
            }
            t += 1;
        }
        None
    }

    /// Total spike count.
    pub fn count(&self) -> (r: usize)
        ensures
            r == self.fired().len(),
            r <= self.spikes@.len(),
    {
        let ghost p = |t: usize| self.spikes@[t as int];
        proof {
            assert(index_set(0, p) =~= Set::<usize>::empty());
        }
        let mut n: usize = 0;
        let mut t: usize = 0;
        while t < self.spikes.len()
            invariant
                t <= self.spikes@.len(),
                p == (|t: usize| self.spikes@[t as int]),
                index_set(t as int, p).finite(),
                n == index_set(t as int, p).len(),
                n <= t,
            decreases self.spikes@.len() - t,
        {
            proof {
                lemma_index_set_step(t as int, p);
                lemma_index_set_finite(t as int + 1, p);
            }
            if self.spikes[t] {
                n += 1;
            }
            t += 1;
        }
        n
    }

    /// Record a spike at step `t`. No-op if `t` is outside the train.
    pub fn spike_at(&mut self, t: usize)
        ensures
            final(self).spikes@ == if t < old(self).spikes@.len() {
                old(self).spikes@.update(t as int, true)
            } else {
                old(self).spikes@
            },
    {
        if t < self.spikes.len() {
            self.spikes.set(t, true);
        }
    }

    /// Number of time steps, over the common length of the two trains, at
    /// which exactly one of them fired.
    pub fn mismatches(&self, other: &SpikeTrain) -> (r: usize)
        ensures
            r == index_set(
                if self.spikes@.len() <= other.spikes@.len() {
                    self.spikes@.len() as int
                } else {
                    other.spikes@.len() as int
                },
                |t: usize| self.spikes@[t as int] != other.spikes@[t as int],
            ).len(),
    {
        let n = if self.spikes.len() <= other.spikes.len() {
            self.spikes.len()
        } else {
            other.spikes.len()
        };
        let ghost p = |t: usize| self.spikes@[t as int] != other.spikes@[t as int];
        proof {
            assert(index_set(0, p) =~= Set::<usize>::empty());
        }
        let mut m: usize = 0;
        let mut t: usize = 0;
        while t < n
            invariant
                t <= n,
                n <= self.spikes@.len(),
                n <= other.spikes@.len(),
                p == (|t: usize| self.spikes@[t as int] != other.spikes@[t as int]),
                index_set(t as int, p).finite(),
                m == index_set(t as int, p).len(),
                m <= t,
            decreases n - t,
        {
            proof {
                lemma_index_set_step(t as int, p);
                lemma_index_set_finite(t as int + 1, p);
            }
            if self.spikes[t] != other.spikes[t] {
                m += 1;
            }
            t += 1;
        }
        m
    }
}

/// A synchronous burst of a population of `width` neurons: neuron `i`
/// fires on its own step `i`, for every step of the window that a neuron
/// covers.
pub fn burst(width: usize) -> (r: SpikeTrain)
    ensures
        r.spikes@ == Seq::new(SPIKE_WINDOW as nat, |t: int| t < width),
{
    let mut train = SpikeTrain::silent();
    let limit = if width < SPIKE_WINDOW { width } else { SPIKE_WINDOW };
    let mut i: usize = 0;
    while i < limit
        invariant
            limit <= SPIKE_WINDOW,
            limit == if width < SPIKE_WINDOW { width } else { SPIKE_WINDOW },
            i <= limit,
            train.spikes@ == Seq::new(SPIKE_WINDOW as nat, |t: int| t < i),
        decreases limit - i,
    {
        train.spike_at(i);
        i += 1;
        assert(train.spikes@ =~= Seq::new(SPIKE_WINDOW as nat, |t: int| t < i));
    }
    assert(train.spikes@ =~= Seq::new(SPIKE_WINDOW as nat, |t: int| t < width));
    train
}

} // verus!
