use nexus_cog_neural::spike::burst;
use nexus_cog_neural::{spike_to_sdr, spike_train_to_sdr, SpikeTrain, SDR_WIDTH, SPIKE_WINDOW};

#[test]
fn silent_train_has_no_spikes() {
    let t = SpikeTrain::silent();
    assert_eq!(t.count(), 0);
    assert_eq!(t.first_spike(), None);
}

#[test]
fn first_spike_returns_lowest_index() {
    let mut t = SpikeTrain::silent();
    t.spike_at(7);
    t.spike_at(3);
    assert_eq!(t.first_spike(), Some(3));
}

#[test]
fn burst_spikes_every_neuron() {
    let b = burst(16);
    assert_eq!(b.count(), 16);
}

#[test]
fn burst_is_capped_by_the_window() {
    let b = burst(100);
    assert_eq!(b.count(), SPIKE_WINDOW);
    assert_eq!(b.first_spike(), Some(0));
}

#[test]
fn spike_outside_window_is_ignored() {
    let mut t = SpikeTrain::silent();
    t.spike_at(SPIKE_WINDOW);
    assert_eq!(t.count(), 0);
    assert_eq!(t.spikes.len(), SPIKE_WINDOW);
}

#[test]
fn mismatches_count_differing_steps() {
    let silent = SpikeTrain::silent();
    let mut a = SpikeTrain::silent();
    a.spike_at(0);
    a.spike_at(5);
    let mut b = SpikeTrain::silent();
    b.spike_at(5);
    b.spike_at(9);
    assert_eq!(a.mismatches(&b), 2);
    assert_eq!(a.mismatches(&silent), 2);
    assert_eq!(silent.mismatches(&silent), 0);
}

#[test]
fn spike_sdr_of_silence_is_empty() {
    let silent = SpikeTrain::silent();
    assert_eq!(spike_to_sdr(&[silent.clone(), silent.clone()]).active_count(), 0);
    assert_eq!(spike_train_to_sdr(&silent).active_count(), 0);
}

#[test]
fn spike_sdr_follows_the_hash_chain() {
    let mut t = SpikeTrain::silent();
    t.spike_at(2);
    let mut h: u64 = 1469598103934665603;
    h ^= h.wrapping_mul(1099511628211);
    let expected = (h % SDR_WIDTH as u64) as usize;
    let s = spike_train_to_sdr(&t);
    assert_eq!(s.active_bits(), &[expected]);
    let many = spike_to_sdr(&[SpikeTrain::silent(), t.clone()]);
    assert_eq!(many.active_bits(), &[expected]);
}

/// Fraction of the window on which two trains disagree.
fn distance(a: &SpikeTrain, b: &SpikeTrain) -> f32 {
    a.mismatches(b) as f32 / SPIKE_WINDOW as f32
}

/// Summed per-layer distance and its surprisal in bits.
fn prediction_error(predicted: &[SpikeTrain], actual: &[SpikeTrain]) -> (f32, f32) {
    assert_eq!(predicted.len(), actual.len(), "layer count mismatch");
    let absolute: f32 = predicted.iter().zip(actual.iter()).map(|(p, a)| distance(p, a)).sum();
    let normalised = absolute / predicted.len().max(1) as f32;
    (absolute, -(1.0 - normalised.clamp(0.0, 0.999)).log2())
}

#[test]
fn perfect_prediction_has_zero_absolute_error() {
    let s = SpikeTrain::silent();
    let (absolute, surprisal_bits) = prediction_error(&[s.clone(), s.clone()], &[s.clone(), s.clone()]);
    assert_eq!(absolute, 0.0);
    assert_eq!(surprisal_bits, 0.0);
}

#[test]
fn perfect_mismatch_is_one_per_layer() {
    let silent = SpikeTrain::silent();
    let mut burst = SpikeTrain::silent();
    burst.spike_at(0);
    let (absolute, _) = prediction_error(&[silent.clone()], &[burst]);
    assert!(absolute > 0.0);
}
