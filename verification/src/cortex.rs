//! Conversion of cortical spike-train observations into SDRs, used for
//! hippocampal storage, global-workspace competition and working memory.
use vstd::prelude::*;
use crate::sdr::{Sdr, SDR_WIDTH};
use crate::spike::SpikeTrain;

verus! {

/// FNV-1a offset basis: the hash state before any spike.
pub const HASH_SEED: u64 = 1469598103934665603;

/// FNV prime used to mix the hash state at every spike.
pub const HASH_PRIME: u64 = 1099511628211;

/// Every time step of every train, train after train.
pub open spec fn all_steps(trains: Seq<SpikeTrain>) -> Seq<bool>
    decreases trains.len(),
{
    if trains.len() == 0 {
        Seq::empty()
    } else {
        all_steps(trains.drop_last()) + trains.last().spikes@
    }
}

/// The hash state after a run of time steps: each spike mixes the state
/// with itself times [`HASH_PRIME`] (wrapping); silent steps leave it.
pub open spec fn hash_state(steps: Seq<bool>) -> u64
    decreases steps.len(),
{
    if steps.len() == 0 {
        HASH_SEED
    } else {
        let h = hash_state(steps.drop_last());
        if steps.last() {
            h ^ h.wrapping_mul(HASH_PRIME)
        } else {
            h
        }
    }
}

/// The SDR bits of a run of time steps: each spike activates the bit
/// `state mod SDR_WIDTH` of the hash state it produced.
pub open spec fn hashed_bits(steps: Seq<bool>) -> Set<usize>
    decreases steps.len(),
{
    if steps.len() == 0 {
        Set::empty()
    } else if steps.last() {
        hashed_bits(steps.drop_last()).insert((hash_state(steps) % (SDR_WIDTH as u64)) as usize)
    } else {
        hashed_bits(steps.drop_last())
    }
}

/// Fold the time steps of one train into the running hash state and bit list.
fn absorb_train(train: &SpikeTrain, h: &mut u64, bits: &mut Vec<usize>, Ghost(prefix): Ghost<
    Seq<bool>,
>)
    requires
        *old(h) == hash_state(prefix),
        old(bits)@.to_set() == hashed_bits(prefix),
        forall|k: int| 0 <= k < old(bits)@.len() ==> #[trigger] old(bits)@[k] < SDR_WIDTH,
    ensures
        *final(h) == hash_state(prefix + train.spikes@),
        final(bits)@.to_set() == hashed_bits(prefix + train.spikes@),
        forall|k: int| 0 <= k < final(bits)@.len() ==> #[trigger] final(bits)@[k] < SDR_WIDTH,
{
    let mut j: usize = 0;
    while j < train.spikes.len()
        invariant
            j <= train.spikes@.len(),
            *h == hash_state(prefix + train.spikes@.take(j as int)),
            bits@.to_set() == hashed_bits(prefix + train.spikes@.take(j as int)),
            forall|k: int| 0 <= k < bits@.len() ==> #[trigger] bits@[k] < SDR_WIDTH,
        decreases train.spikes@.len() - j,
    {
        let ghost before = prefix + train.spikes@.take(j as int);
        let ghost after = prefix + train.spikes@.take(j + 1);
        assert(after.drop_last() =~= before);
        assert(after.last() == train.spikes@[j as int]);
        if train.spikes[j] {
            *h = *h ^ (*h).wrapping_mul(HASH_PRIME);
            let b = (*h % (SDR_WIDTH as u64)) as usize;
            let ghost old_bits = bits@;
            bits.push(b);
            proof {
                assert(bits@.to_set() =~= old_bits.to_set().insert(b)) by {
                    assert forall|x: usize| bits@.to_set().contains(x) implies old_bits.to_set().insert(
                        b,
                    ).contains(x) by {
                        let m = choose|m: int| 0 <= m < bits@.len() && bits@[m] == x;
                        if m < old_bits.len() {
                            assert(old_bits[m] == x);
                        }
                    }
                    assert forall|x: usize| old_bits.to_set().insert(b).contains(x) implies bits@.to_set().contains(
                        x,
                    ) by {
                        if x == b {
                            assert(bits@[old_bits.len() as int] == x);
                        } else {
                            let m = choose|m: int| 0 <= m < old_bits.len() && old_bits[m] == x;
                            assert(bits@[m] == x);
                        }
                    }
                }
            }
        }
        j += 1;
    }
    assert(train.spikes@.take(train.spikes@.len() as int) =~= train.spikes@);
}

/// Convert spike-train observations into a stable SDR for hippocampal
/// storage: every spike, across all trains in order, advances an FNV-style
/// hash and activates the bit its state selects.
pub fn spike_to_sdr(spikes: &[SpikeTrain]) -> (r: Sdr)
    ensures
        r@ == hashed_bits(all_steps(spikes@)),
        r@ == hashed_bits(spikes@.map_values(|t: SpikeTrain| t.spikes@).flatten()),
{
    let mut bits: Vec<usize> = Vec::new();
    let mut h: u64 = HASH_SEED;
    let mut i: usize = 0;
    proof {
        assert(spikes@.take(0) =~= Seq::<SpikeTrain>::empty());
        assert(bits@.to_set() =~= Set::<usize>::empty());
    }
    while i < spikes.len()
        invariant
            i <= spikes@.len(),
            h == hash_state(all_steps(spikes@.take(i as int))),
            bits@.to_set() == hashed_bits(all_steps(spikes@.take(i as int))),
            forall|k: int| 0 <= k < bits@.len() ==> #[trigger] bits@[k] < SDR_WIDTH,
        decreases spikes@.len() - i,
    {
        let ghost prefix = all_steps(spikes@.take(i as int));
        absorb_train(&spikes[i], &mut h, &mut bits, Ghost(prefix));
        proof {
            let t1 = spikes@.take(i + 1);
            assert(t1.drop_last() =~= spikes@.take(i as int));
            assert(t1.last() == spikes@[i as int]);
            assert(all_steps(t1) == prefix + spikes@[i as int].spikes@);
        }
        i += 1;
    }
    let r = Sdr::from_bits(bits.as_slice());
    proof {
        lemma_steps_are_the_trains_in_order(spikes@);
        assert(spikes@.take(spikes@.len() as int) =~= spikes@);
        assert(bits@.to_set().filter(|b: usize| b < SDR_WIDTH) =~= bits@.to_set());
    }
    r
}

/// Convert one spike train into an SDR — the same conversion applied to a
/// single observation; used by global-workspace competition and working
/// memory.
pub fn spike_train_to_sdr(train: &SpikeTrain) -> (r: Sdr)
    ensures
        r@ == hashed_bits(train.spikes@),
        r@ == hashed_bits(all_steps(seq![*train])),
{
    let mut bits: Vec<usize> = Vec::new();
    let mut h: u64 = HASH_SEED;
    proof {
        assert(bits@.to_set() =~= Set::<usize>::empty());
        assert(Seq::<bool>::empty() + train.spikes@ =~= train.spikes@);
        let one = seq![*train];
        assert(one.drop_last() =~= Seq::<SpikeTrain>::empty());
        assert(all_steps(one.drop_last()) == Seq::<bool>::empty());
        assert(one.last() == *train);
        assert(all_steps(one) == Seq::<bool>::empty() + train.spikes@);
    }
    absorb_train(train, &mut h, &mut bits, Ghost(Seq::<bool>::empty()));
    let r = Sdr::from_bits(bits.as_slice());
    proof {
        assert(bits@.to_set().filter(|b: usize| b < SDR_WIDTH) =~= bits@.to_set());
    }
    r
}

/// The steps of an observation are the steps of its trains, concatenated
/// in order: no train is skipped.
pub proof fn lemma_steps_are_the_trains_in_order(trains: Seq<SpikeTrain>)
    ensures
        all_steps(trains) == trains.map_values(|t: SpikeTrain| t.spikes@).flatten(),
    decreases trains.len(),
{
    let m = trains.map_values(|t: SpikeTrain| t.spikes@);
    m.lemma_flatten_and_flatten_alt_are_equivalent();
    if trains.len() > 0 {
        lemma_steps_are_the_trains_in_order(trains.drop_last());
        let md = trains.drop_last().map_values(|t: SpikeTrain| t.spikes@);
        assert(m.drop_last() =~= md);
        md.lemma_flatten_and_flatten_alt_are_equivalent();
        assert(m.last() == trains.last().spikes@);
    } else {
        assert(m =~= Seq::<Seq<bool>>::empty());
    }
}

/// Appending steps never takes away a bit that earlier steps set.
proof fn lemma_hashed_bits_grow(a: Seq<bool>, b: Seq<bool>)
    ensures
        hashed_bits(a).subset_of(hashed_bits(a + b)),
    decreases b.len(),
{
    if b.len() == 0 {
        assert(a + b =~= a);
    } else {
        lemma_hashed_bits_grow(a, b.drop_last());
        assert((a + b).drop_last() =~= a + b.drop_last());
    }
}

/// Silent steps change neither the hash state nor the bits.
proof fn lemma_silence_changes_nothing(a: Seq<bool>, b: Seq<bool>)
    requires
        forall|i: int| 0 <= i < b.len() ==> !#[trigger] b[i],
    ensures
        hash_state(a + b) == hash_state(a),
        hashed_bits(a + b) == hashed_bits(a),
    decreases b.len(),
{
    if b.len() == 0 {
        assert(a + b =~= a);
    } else {
        lemma_silence_changes_nothing(a, b.drop_last());
        assert((a + b).drop_last() =~= a + b.drop_last());
        assert((a + b).last() == b[b.len() - 1]);
    }
}

/// Observing one more train keeps every bit that the earlier trains set —
/// a spike in any train counts, not only in the last — and a silent train
/// adds nothing: the observation `[t, silent]` converts like `t` alone.
pub proof fn lemma_every_train_counts(trains: Seq<SpikeTrain>, t: SpikeTrain)
    ensures
        hashed_bits(all_steps(trains)).subset_of(hashed_bits(all_steps(trains.push(t)))),
        (forall|i: int| 0 <= i < t.spikes@.len() ==> !#[trigger] t.spikes@[i]) ==> hashed_bits(
            all_steps(trains.push(t)),
        ) == hashed_bits(all_steps(trains)),
        hashed_bits(all_steps(seq![t])) == hashed_bits(t.spikes@),
{
    let ext = trains.push(t);
    assert(ext.drop_last() =~= trains);
    assert(ext.last() == t);
    assert(all_steps(ext) == all_steps(trains) + t.spikes@);
    lemma_hashed_bits_grow(all_steps(trains), t.spikes@);
    if forall|i: int| 0 <= i < t.spikes@.len() ==> !#[trigger] t.spikes@[i] {
        lemma_silence_changes_nothing(all_steps(trains), t.spikes@);
    }
    let one = seq![t];
    assert(one.drop_last() =~= Seq::<SpikeTrain>::empty());
    assert(all_steps(one.drop_last()) == Seq::<bool>::empty());
    assert(one.last() == t);
    assert(Seq::<bool>::empty() + t.spikes@ =~= t.spikes@);
    assert(all_steps(one) == t.spikes@);
}

} // verus!
