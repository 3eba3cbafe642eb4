//! Overlap metrics on SDRs. In a sparse code raw overlap is already a
//! meaningful similarity; the set sizes here are the integer ingredients of
//! the normalised scores.
use vstd::prelude::*;
use super::counting::{lemma_increasing_len, lemma_prefix_filter_step};
use super::Sdr;

verus! {

/// Raw overlap `|a ∩ b|`: the number of bits active in both SDRs.
pub fn overlap(a: &Sdr, b: &Sdr) -> (r: usize)
    ensures
        r == a@.intersect(b@).len(),
{
    let bits = a.active_bits();
    proof {
        lemma_increasing_len(bits@);
    }
    let ghost p = |x: usize| b@.contains(x);
    let mut count: usize = 0;
    let mut k: usize = 0;
    proof {
        assert(bits@.take(0).to_set().filter(p) =~= Set::<usize>::empty());
    }
    while k < bits.len()
        invariant
            k <= bits@.len(),
            bits@.no_duplicates(),
            p == (|x: usize| b@.contains(x)),
            bits@.take(k as int).to_set().filter(p).finite(),
            count == bits@.take(k as int).to_set().filter(p).len(),
            count <= k,
        decreases bits@.len() - k,
    {
        proof {
            lemma_prefix_filter_step(bits@, k as int, p);
        }
        if b.get(bits[k]) {
            count += 1;
        }
        k += 1;
    }
    proof {
        assert(bits@.take(bits@.len() as int) =~= bits@);
        assert(bits@.to_set().filter(p) =~= a@.intersect(b@));
    }
    count
}

/// `|a ∩ b|`.
pub fn intersection_size(a: &Sdr, b: &Sdr) -> (r: usize)
    ensures
        r == a@.intersect(b@).len(),
{
    overlap(a, b)
}

/// Whether `x` occurs in `v`.
fn holds_index(v: &Vec<usize>, x: usize) -> (r: bool)
    ensures
        r == v@.contains(x),
{
    let mut k: usize = 0;
    while k < v.len()
        invariant
            k <= v@.len(),
            forall|m: int| 0 <= m < k ==> v@[m] != x,
        decreases v@.len() - k,
    {
        if v[k] == x {
            return true;
        }
        k += 1;
    }
    false
}

/// `|a ∪ b|`: the number of bits active in either SDR.
pub fn union_size(a: &Sdr, b: &Sdr) -> (r: usize)
    ensures
        r == a@.union(b@).len(),
{
    let abits = a.active_bits();
    let bbits = b.active_bits();
    proof {
        lemma_increasing_len(abits@);
    }
    let mut seen: Vec<usize> = Vec::new();
    let mut k: usize = 0;
    while k < abits.len()
        invariant
            k <= abits@.len(),
            seen@ == abits@.take(k as int),
        decreases abits@.len() - k,
    {
        seen.push(abits[k]);
        proof {
            assert(seen@ =~= abits@.take(k + 1));
        }
        k += 1;
    }
    proof {
        assert(seen@ =~= abits@);
        assert(bbits@.take(0).to_set() =~= Set::<usize>::empty());
        assert(seen@.to_set().union(Set::<usize>::empty()) =~= seen@.to_set());
    }
    let mut j: usize = 0;
    while j < bbits.len()
        invariant
            j <= bbits@.len(),
            seen@.no_duplicates(),
            seen@.to_set() == a@.union(bbits@.take(j as int).to_set()),
            abits@.to_set() == a@,
        decreases bbits@.len() - j,
    {
        let x = bbits[j];
        let ghost before = seen@;
        if !holds_index(&seen, x) {
            seen.push(x);
            proof {
                assert forall|m: int, n: int|
                    0 <= m < seen@.len() && 0 <= n < seen@.len() && m != n implies seen@[m]
                    != seen@[n] by {
                    if m < before.len() && n < before.len() {
                        assert(seen@[m] == before[m] && seen@[n] == before[n]);
                    } else if m == before.len() {
                        assert(seen@[n] == before[n]);
                        assert(before.contains(before[n]));
                    } else {
                        assert(seen@[m] == before[m]);
                        assert(before.contains(before[m]));
                    }
                }
            }
        }
        proof {
            let t0 = bbits@.take(j as int);
            let t1 = bbits@.take(j + 1);
            assert(t1.to_set() =~= t0.to_set().insert(x)) by {
                assert forall|y: usize| t1.to_set().contains(y) implies t0.to_set().insert(
                    x,
                ).contains(y) by {
                    let m = choose|m: int| 0 <= m < t1.len() && t1[m] == y;
                    if m < j {
                        assert(t0[m] == y);
                    }
                }
                assert forall|y: usize| t0.to_set().insert(x).contains(y) implies t1.to_set().contains(
                    y,
                ) by {
                    if y == x {
                        assert(t1[j as int] == y);
                    } else {
                        let m = choose|m: int| 0 <= m < t0.len() && t0[m] == y;
                        assert(t1[m] == y);
                    }
                }
            }
            assert(seen@.to_set() =~= a@.union(t1.to_set())) by {
                assert forall|y: usize| seen@.to_set().contains(y) implies a@.union(
                    t1.to_set(),
                ).contains(y) by {
                    let m = choose|m: int| 0 <= m < seen@.len() && seen@[m] == y;
                    if m < before.len() {
                        assert(before.to_set().contains(y));
                    }
                }
                assert forall|y: usize| a@.union(t1.to_set()).contains(y) implies seen@.to_set().contains(
                    y,
                ) by {
                    if y == x {
                        if before.contains(y) {
                            let m = choose|m: int| 0 <= m < before.len() && before[m] == y;
                            assert(seen@[m] == y);
                        } else {
                            assert(seen@[before.len() as int] == y);
                        }
                    } else {
                        assert(before.to_set().contains(y));
                        let m = choose|m: int| 0 <= m < before.len() && before[m] == y;
                        assert(seen@[m] == y);
                    }
                }
            }
        }
        j += 1;
    }
    proof {
        assert(bbits@.take(bbits@.len() as int) =~= bbits@);
        seen@.unique_seq_to_set();
    }
    seen.len()
}

/// Distance metric used by the population code in the region layer.
#[derive(Debug, Clone, Copy, PartialEq, Eq)]
pub enum PopulationDistance {
    /// Raw overlap divided by `min(|a|, |b|)`. Bounded in `[0, 1]`,
    /// `0` = perfect match.
    MinNormOverlap,
    /// `1 - semantic_similarity`. Symmetric.
    SemanticComplement,
    /// Jaccard distance.
    Jaccard,
    /// Hamming fraction `hamming / width`. Bounded in `[0, 1]`.
    Hamming,
}


/// The set sizes behind the normalised scores: the overlap of two SDRs is
/// at most the size of either, their union at least the size of either,
/// and `|a| + |b| - |a ∩ b| == |a ∪ b|`, so the Tanimoto denominator is the
/// Jaccard one. Both orders give the same overlap and union.
pub proof fn lemma_overlap_bounds(a: Set<usize>, b: Set<usize>)
    requires
        a.finite(),
        b.finite(),
    ensures
        a.intersect(b).len() <= a.len(),
        a.intersect(b).len() <= b.len(),
        a.len() <= a.union(b).len(),
        b.len() <= a.union(b).len(),
        a.len() + b.len() - a.intersect(b).len() == a.union(b).len(),
        a.intersect(b).len() == b.intersect(a).len(),
        a.union(b).len() == b.union(a).len(),
        a.intersect(a).len() == a.len(),
{
    vstd::set_lib::lemma_len_intersect(a, b);
    vstd::set_lib::lemma_len_intersect(b, a);
    vstd::set_lib::lemma_set_intersect_union_lens(a, b);
    vstd::set_lib::lemma_len_subset(a, a.union(b));
    vstd::set_lib::lemma_len_subset(b, a.union(b));
    assert(a.intersect(b) =~= b.intersect(a));
    assert(a.union(b) =~= b.union(a));
    assert(a.intersect(a) =~= a);
}

/// Hamming distance is symmetric, zero exactly between equal SDRs, and
/// equals `|a ∪ b| - |a ∩ b|`.
pub proof fn lemma_hamming_laws(a: Set<usize>, b: Set<usize>)
    requires
        a.finite(),
        b.finite(),
    ensures
        a.difference(b).union(b.difference(a)).len() == b.difference(a).union(a.difference(b)).len(),
        a.difference(b).union(b.difference(a)).len() == a.union(b).len() - a.intersect(b).len(),
        (a.difference(b).union(b.difference(a)).len() == 0) <==> a == b,
{
    let d = a.difference(b).union(b.difference(a));
    assert(d =~= b.difference(a).union(a.difference(b)));
    assert(d =~= a.union(b).difference(a.intersect(b)));
    vstd::set_lib::lemma_set_difference_len(a.union(b), a.intersect(b));
    assert(a.union(b).intersect(a.intersect(b)) =~= a.intersect(b));
    if d.len() == 0 {
        vstd::set_lib::lemma_set_empty_equivalency_len(d);
        assert forall|x: usize| a.contains(x) <==> b.contains(x) by {
            assert(!d.contains(x));
        }
        assert(a =~= b);
    }
    if a == b {
        assert(d =~= Set::<usize>::empty());
    }
}

} // verus!
