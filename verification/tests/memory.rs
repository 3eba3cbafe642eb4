use nexus_cog_neural::attention::focus_bits;
use nexus_cog_neural::hierarchy::sorted_column_ids;
use nexus_cog_neural::region::spatial_pooler::{column_overlap, select_winners};
use nexus_cog_neural::sdr::overlap::overlap;
use nexus_cog_neural::{
    bucket_bits, CategoryEncoder, ColumnId, Encoder, Sdr, SequenceEncoder, TemporalMemory, SDR_WIDTH,
};

/// Overlap normalised by the geometric mean of the active counts.
fn semantic_similarity(a: &Sdr, b: &Sdr) -> f32 {
    let n = overlap(a, b) as f32;
    let da = a.active_count() as f32;
    let db = b.active_count() as f32;
    if da == 0.0 || db == 0.0 {
        return 0.0;
    }
    n / (da * db).sqrt()
}

/// The bucket position of a scalar in `[min, max]` over `buckets` buckets.
fn scalar_pos(value: f32, min: f32, max: f32, buckets: usize) -> i64 {
    let clamped = value.clamp(min, max);
    let range = (max - min).max(f32::EPSILON);
    ((clamped - min) / range * (buckets - 1) as f32).round() as i64
}

#[test]
fn empty_history_yields_empty_prediction() {
    let tm = TemporalMemory::new();
    let active = Sdr::from_bits(&[0, 1, 2]);
    let p = tm.predict(&active);
    assert!(p.active_count() == 0);
}

#[test]
fn repeated_pattern_is_predicted() {
    let mut tm = TemporalMemory::new();
    let pattern = Sdr::from_bits(&[0, 1, 2, 3]);
    for _ in 0..3 {
        let _ = tm.learn(pattern.clone());
    }
    let predicted = tm.predict(&pattern);
    let sim = semantic_similarity(&predicted, &pattern);
    assert!(sim > 0.5, "TM should predict the recurring pattern, got {sim}");
}

#[test]
fn fresh_learning_recalls_short_pattern() {
    let mut tm = TemporalMemory::new();
    let pattern = Sdr::from_bits(&[7, 70, 700]);
    let (prediction, active) = tm.learn(pattern.clone());
    assert_eq!(prediction.active_count(), 0);
    assert!(active == pattern);
    assert_eq!(tm.last_prediction().active_count(), 0);
    assert!(tm.predict(&pattern) == pattern);
}

#[test]
fn long_pattern_keeps_only_recent_bits() {
    let mut tm = TemporalMemory::new();
    let pattern = Sdr::from_bits(&[1, 2, 3, 4, 5, 6]);
    let _ = tm.learn(pattern.clone());
    let predicted = tm.predict(&Sdr::from_bits(&[1]));
    assert_eq!(predicted.active_bits(), &[3, 4, 5, 6]);
}

#[test]
fn category_reproducible() {
    let mut e = CategoryEncoder::new(10);
    let a = e.encode(3);
    let b = e.encode(3);
    assert_eq!(a.active_bits(), b.active_bits());
    assert_eq!(a.active_count(), e.active_per_output());
    assert_eq!(e.output_width(), SDR_WIDTH);
}

#[test]
fn sequence_encoder_windows_recent_values() {
    let mut e = SequenceEncoder::new(4);
    let a = e.feed(1);
    assert!(a.active_count() <= SDR_WIDTH / 4 / 64);
    assert!(a.active_count() > 0);
    for v in 2..10 {
        let s = e.feed(v);
        assert!(s.active_count() <= 4 * (SDR_WIDTH / 4 / 64));
    }
    let mut none = SequenceEncoder::new(0);
    assert_eq!(none.feed(5).active_count(), 0);
}

#[test]
fn scalar_adjacent_inputs_overlap() {
    let bpb = SDR_WIDTH / 100;
    let a = bucket_bits(scalar_pos(50.0, 0.0, 100.0, 100), 3, 100, bpb, false);
    let b = bucket_bits(scalar_pos(51.0, 0.0, 100.0, 100), 3, 100, bpb, false);
    let sim = semantic_similarity(&a, &b);
    assert!(sim > 0.5, "adjacent inputs should overlap heavily, got {sim}");
}

#[test]
fn scalar_distant_inputs_diverge() {
    let bpb = SDR_WIDTH / 100;
    let a = bucket_bits(scalar_pos(0.0, 0.0, 100.0, 100), 3, 100, bpb, false);
    let b = bucket_bits(scalar_pos(100.0, 0.0, 100.0, 100), 3, 100, bpb, false);
    let sim = semantic_similarity(&a, &b);
    assert!(sim < 0.4, "distant inputs should diverge, got {sim}");
}

#[test]
fn bucket_layout_slides_inward_and_wraps() {
    // At the low end the window slides inward: buckets 0, 1, 2 → bits 0..60.
    let low = bucket_bits(0, 3, 100, 20, false);
    assert_eq!(low.active_count(), 60);
    assert!(low.get(0) && low.get(59) && !low.get(60));
    // At the high end: buckets 97, 98, 99.
    let high = bucket_bits(99, 3, 100, 20, false);
    assert_eq!(high.active_count(), 60);
    assert!(high.get(97 * 20) && high.get(99 * 20 + 19) && !high.get(97 * 20 - 1));
    // The encoded count of a scalar encoder over 100 buckets with 3 active.
    let bpb = SDR_WIDTH / 100;
    let edge = bucket_bits(scalar_pos(0.0, 0.0, 100.0, 100), 3, 100, bpb, false);
    assert_eq!(edge.active_count(), 3 * bpb);
    // Periodic: bucket 23 wraps its right neighbour to bucket 0.
    let wrap = bucket_bits(23, 3, 24, 85, true);
    assert!(wrap.get(0) && wrap.get(22 * 85) && wrap.get(23 * 85));
    assert_eq!(wrap.active_count(), 3 * 85);
}

#[test]
fn column_overlap_counts_active_connected_bits() {
    let input = Sdr::from_bits(&[1, 4, 9]);
    assert_eq!(column_overlap(&[1, 2, 3, 4], &input), 2);
    assert_eq!(column_overlap(&[], &input), 0);
}

#[test]
fn winners_are_best_scores_with_low_index_ties() {
    let winners = select_winners(&[3, 7, 7, 1, 9, 0], 3);
    assert_eq!(winners, vec![1, 2, 4]);
    let tied = select_winners(&[5, 5, 5, 5], 2);
    assert_eq!(tied, vec![0, 1]);
    assert_eq!(select_winners(&[1, 2], 5), vec![0, 1]);
}

#[test]
fn column_ids_sort_ascending() {
    let ids = sorted_column_ids(vec![ColumnId(4), ColumnId(0), ColumnId(2)]);
    assert_eq!(ids, vec![ColumnId(0), ColumnId(2), ColumnId(4)]);
}

#[test]
fn focus_covers_top_k_blocks() {
    let focus = focus_bits(&[9, 8, 7]);
    assert_eq!(focus.active_count(), 3 * (SDR_WIDTH / 3));
    let none = focus_bits(&[]);
    assert_eq!(none.active_count(), 0);
    let one = focus_bits(&[5000]);
    assert_eq!(one.active_count(), SDR_WIDTH);
}

#[test]
fn focus_sdr_covers_top_k() {
    let biases: Vec<f32> = (0..10u8).map(|i| f32::from(i) / 10.0).collect();
    let mut scored: Vec<(usize, f32)> = biases.iter().copied().enumerate().collect();
    scored.sort_by(|a, b| b.1.partial_cmp(&a.1).unwrap());
    let chosen: Vec<usize> = scored.into_iter().take(3).map(|(i, _)| i).collect();
    assert_eq!(chosen, vec![9, 8, 7]);
    let focus = focus_bits(&chosen);
    assert!(focus.active_count() > 0);
}

#[test]
fn wide_sequence_window_still_encodes_every_value() {
    let mut e = SequenceEncoder::new(64);
    let s = e.feed(42);
    assert!(s.active_count() > 0);
    for v in 0..100 {
        let s = e.feed(v);
        assert!(s.active_count() >= 1 && s.active_count() <= 64);
    }
}
