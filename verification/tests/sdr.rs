use nexus_cog_neural::sdr::bitset::active_count;
use nexus_cog_neural::sdr::overlap::{intersection_size, overlap, union_size};
use nexus_cog_neural::{Sdr, SDR_WIDTH};
use rand::rngs::StdRng;
use rand::SeedableRng;

/// Density `active / width`, as the embedding layer computes it.
fn density(s: &Sdr) -> f32 {
    s.active_count() as f32 / SDR_WIDTH as f32
}

/// Overlap normalised by the geometric mean of the active counts.
fn semantic_similarity(a: &Sdr, b: &Sdr) -> f32 {
    let n = overlap(a, b) as f32;
    let da = a.active_count() as f32;
    let db = b.active_count() as f32;
    if da == 0.0 || db == 0.0 {
        return 0.0;
    }
    n / (da * db).sqrt()
}

/// `1 - |a ∩ b| / |a ∪ b|`.
fn jaccard_distance(a: &Sdr, b: &Sdr) -> f32 {
    let u = union_size(a, b) as f32;
    if u == 0.0 {
        return 0.0;
    }
    1.0 - overlap(a, b) as f32 / u
}

#[test]
fn empty_has_no_active_bits() {
    let s = Sdr::empty();
    assert_eq!(s.active_count(), 0);
    assert_eq!(density(&s), 0.0);
    assert_eq!(s.width(), SDR_WIDTH);
}

#[test]
fn from_bits_respects_width() {
    let s = Sdr::from_bits(&[0, 1, 100, SDR_WIDTH + 50]);
    assert_eq!(s.active_count(), 3);
    assert!(s.get(0) && s.get(1) && s.get(100));
    assert!(!s.get(SDR_WIDTH + 50));
}

#[test]
fn random_active_count_matches() {
    let mut rng = StdRng::seed_from_u64(42);
    let s = Sdr::random_active(&mut rng, 40);
    assert_eq!(s.active_count(), 40);
    let active = s.active_bits().to_vec();
    let mut sorted = active.clone();
    sorted.sort_unstable();
    assert_eq!(active, sorted, "active bits must be sorted ascending");
}

#[test]
fn union_and_intersection() {
    let a = Sdr::from_bits(&[0, 5, 10]);
    let b = Sdr::from_bits(&[5, 10, 20]);
    let mut u = a.clone();
    u.union_with(&b);
    assert_eq!(u.active_count(), 4);
    let mut i = a.clone();
    i.intersection_with(&b);
    assert_eq!(i.active_bits(), &[5, 10]);
}

#[test]
fn sparsify_reduces_to_keep() {
    let mut rng = StdRng::seed_from_u64(1);
    let mut s = Sdr::random_active(&mut rng, 100);
    s.sparsify_to(&mut rng, 10);
    assert_eq!(s.active_count(), 10);
}

#[test]
fn hamming_distance() {
    let a = Sdr::from_bits(&[0, 1, 2, 3]);
    let b = Sdr::from_bits(&[0, 1, 2, 3]);
    assert_eq!(a.hamming(&b), 0);
    let c = Sdr::from_bits(&[0, 1, 2, 4]);
    assert_eq!(a.hamming(&c), 2);
}

#[test]
fn overlap_identical() {
    let a = Sdr::from_bits(&[1, 5, 9]);
    let b = Sdr::from_bits(&[1, 5, 9]);
    assert_eq!(overlap(&a, &b), 3);
    assert!((semantic_similarity(&a, &b) - 1.0).abs() < 1e-9);
}

#[test]
fn overlap_disjoint() {
    let a = Sdr::from_bits(&[0, 1, 2]);
    let b = Sdr::from_bits(&[10, 11, 12]);
    assert_eq!(overlap(&a, &b), 0);
    assert_eq!(semantic_similarity(&a, &b), 0.0);
    assert!((jaccard_distance(&a, &b) - 1.0).abs() < 1e-9);
}

#[test]
fn semantic_bounded_in_unit_interval() {
    let a = Sdr::from_bits(&[0, 1, 2, 3, 4]);
    let b = Sdr::from_bits(&[3, 4, 5, 6, 7]);
    let s = semantic_similarity(&a, &b);
    assert!((0.0..=1.0).contains(&s), "{s}");
}

#[test]
fn zero_sdr_similarity() {
    let a = Sdr::empty();
    let b = Sdr::from_bits(&[0, 1, 2]);
    assert_eq!(semantic_similarity(&a, &b), 0.0);
}

#[test]
fn set_and_clear_single_bits() {
    let mut s = Sdr::zero();
    s.set(7, true);
    s.set(3, true);
    assert_eq!(s.active_bits(), &[3, 7]);
    s.set(7, false);
    assert_eq!(s.active_bits(), &[3]);
    s.set(SDR_WIDTH, true);
    assert_eq!(s.active_count(), 1);
}

#[test]
fn repeated_bits_count_once() {
    let s = Sdr::from_bits(&[9, 9, 2, 9, 2047, 2048]);
    assert_eq!(s.active_bits(), &[2, 9, 2047]);
    assert_eq!(active_count(&s), 3);
}

#[test]
fn clone_and_equality_follow_bits() {
    let a = Sdr::from_bits(&[4, 8, 15, 16, 23, 42]);
    let b = a.clone();
    assert!(a == b);
    assert_eq!(b.active_bits(), a.active_bits());
    let c = a.cloned_active();
    assert!(a == c);
    let d = Sdr::from_bits(&[4, 8, 15]);
    assert!(a != d);
    let mut e = a.clone();
    e.rebuild_cache();
    assert!(e == a);
    assert!(Sdr::default() == Sdr::empty());
}

#[test]
fn union_size_and_inclusion_exclusion() {
    let a = Sdr::from_bits(&[0, 5, 10, 15]);
    let b = Sdr::from_bits(&[5, 10, 20]);
    assert_eq!(intersection_size(&a, &b), 2);
    assert_eq!(union_size(&a, &b), 5);
    assert_eq!(
        a.active_count() + b.active_count() - overlap(&a, &b),
        union_size(&a, &b)
    );
    assert_eq!(union_size(&a, &b), union_size(&b, &a));
    assert_eq!(overlap(&a, &a), a.active_count());
}

#[test]
fn hamming_is_symmetric_difference() {
    let a = Sdr::from_bits(&[1, 2, 3, 10]);
    let b = Sdr::from_bits(&[2, 3, 4]);
    assert_eq!(a.hamming(&b), 3);
    assert_eq!(b.hamming(&a), 3);
    assert_eq!(a.hamming(&b), union_size(&a, &b) - overlap(&a, &b));
}

#[test]
fn random_active_caps_at_width() {
    let mut rng = StdRng::seed_from_u64(7);
    let s = Sdr::random_active(&mut rng, SDR_WIDTH + 10);
    assert_eq!(s.active_count(), SDR_WIDTH);
    let t = Sdr::random_active(&mut rng, 0);
    assert_eq!(t.active_count(), 0);
}

#[test]
fn sparsify_keeps_a_subset() {
    let mut rng = StdRng::seed_from_u64(3);
    let original = Sdr::from_bits(&[1, 3, 5, 7, 9, 11, 13]);
    let mut s = original.clone();
    s.sparsify_to(&mut rng, 3);
    assert_eq!(s.active_count(), 3);
    assert_eq!(overlap(&s, &original), 3);
    let mut t = original.clone();
    t.sparsify_to(&mut rng, 20);
    assert!(t == original);
}

#[test]
fn stats_match_active_count() {
    let s = Sdr::from_bits(&[0, 5, 10]);
    let active = s.active_count();
    let inactive = s.width() - active;
    let density = active as f32 / SDR_WIDTH as f32;
    assert_eq!(active, 3);
    assert_eq!(inactive, SDR_WIDTH - 3);
    assert!((density - 3.0 / SDR_WIDTH as f32).abs() < 1e-9);
}
