//! Sparse distributed representations (SDRs).
//!
//! An SDR is a fixed-width bit vector of [`SDR_WIDTH`] bits of which only a
//! few (about 2%) are active. Its mathematical content is the set of its
//! active bit indices, which is what every contract here speaks of: the
//! view `s@` is a set of indices below [`SDR_WIDTH`].
pub mod bitset;
pub mod counting;
pub mod encoder;
pub mod overlap;
pub mod packed;

use vstd::prelude::*;
use vstd::std_specs::cmp::PartialEqSpecImpl;
use rand::rngs::StdRng;
use crate::rng::gen_index;
use self::counting::{index_set, lemma_increasing_len, lemma_index_set_finite, lemma_index_set_step, lemma_prefix_filter_step, strictly_increasing};
use self::packed::{packed_bits, packed_clone, packed_eq, packed_get, packed_set, packed_zeros, PackedBits};

verus! {

/// Width of every SDR in the system (Numenta's default).
pub const SDR_WIDTH: usize = 2048;

/// A fixed-width sparse distributed representation.
///
/// The packed bit vector is the source of truth; the sorted list of active
/// indices is kept in step with it at all times.
#[derive(Debug)]
pub struct Sdr {
    bits: PackedBits,
    cached_active: Vec<usize>,
}

impl View for Sdr {
    type V = Set<usize>;

    /// The set of active bit indices.
    open spec fn view(&self) -> Set<usize> {
        index_set(SDR_WIDTH as int, |i: usize| self.has_bit(i))
    }
}

impl Sdr {
    /// The active indices in ascending order, as [`Sdr::active_bits`] hands
    /// them out.
    pub closed spec fn sorted_bits(&self) -> Seq<usize> {
        self.cached_active@
    }

    /// Whether bit `i` is set in the packed bit vector.
    pub closed spec fn has_bit(&self, i: usize) -> bool {
        packed_bits(self.bits)[i as int]
    }

    #[verifier::type_invariant]
    closed spec fn inv(&self) -> bool {
        &&& packed_bits(self.bits).len() == SDR_WIDTH
        &&& strictly_increasing(self.cached_active@)
        &&& forall|k: int|
            0 <= k < self.cached_active@.len() ==> #[trigger] self.cached_active@[k] < SDR_WIDTH
        &&& forall|i: usize|
            i < SDR_WIDTH ==> (#[trigger] packed_bits(self.bits)[i as int]
                <==> self.cached_active@.contains(i))
    }

    /// The sorted index list is exactly the active set.
    proof fn lemma_cache_is_view(&self)
        requires
            self.inv(),
        ensures
            self.cached_active@.to_set() == self@,
            self.cached_active@.len() == self@.len(),
            self@.finite(),
            forall|k: int|
                0 <= k < self.cached_active@.len() ==> #[trigger] self.cached_active@[k]
                    < SDR_WIDTH,
    {
        assert(self.cached_active@.to_set() =~= self@) by {
            assert forall|j: usize| self.cached_active@.to_set().contains(j) implies self@.contains(
                j,
            ) by {
                let k = choose|k: int|
                    0 <= k < self.cached_active@.len() && self.cached_active@[k] == j;
            }
        }
        lemma_increasing_len(self.cached_active@);
    }

    /// Build an SDR around a full-width bit vector, deriving the sorted
    /// list of its active indices.
    fn from_packed(bits: PackedBits) -> (r: Sdr)
        requires
            packed_bits(bits).len() == SDR_WIDTH,
        ensures
            forall|i: usize| i < SDR_WIDTH ==> r.has_bit(i) == packed_bits(bits)[i as int],
    {
        let mut cache: Vec<usize> = Vec::new();
        let mut i: usize = 0;
        while i < SDR_WIDTH
            invariant
                i <= SDR_WIDTH,
                packed_bits(bits).len() == SDR_WIDTH,
                strictly_increasing(cache@),
                forall|k: int| 0 <= k < cache@.len() ==> cache@[k] < i,
                forall|j: usize|
                    j < i ==> (packed_bits(bits)[j as int] <==> cache@.contains(j)),
            decreases SDR_WIDTH - i,
        {
            if packed_get(&bits, i) {
                let ghost before = cache@;
                cache.push(i);
                assert forall|j: usize| j < i + 1 implies (packed_bits(bits)[j as int]
                    <==> cache@.contains(j)) by {
                    if j < i {
                        if before.contains(j) {
                            let k = choose|k: int| 0 <= k < before.len() && before[k] == j;
                            assert(cache@[k] == j);
                        }
                        if cache@.contains(j) {
                            let k = choose|k: int| 0 <= k < cache@.len() && cache@[k] == j;
                            assert(k < before.len());
                            assert(before[k] == j);
                        }
                    } else {
                        assert(cache@[before.len() as int] == j);
                    }
                }
            } else {
                assert forall|j: usize| j < i + 1 implies (packed_bits(bits)[j as int]
                    <==> cache@.contains(j)) by {
                    if j == i && cache@.contains(j) {
                        let k = choose|k: int| 0 <= k < cache@.len() && cache@[k] == j;
                    }
                }
            }
            i += 1;
        }
        let ghost target = index_set(SDR_WIDTH as int, |j: usize| packed_bits(bits)[j as int]);
        assert(cache@.to_set() =~= target) by {
            assert forall|j: usize| cache@.to_set().contains(j) implies target.contains(j) by {
                let k = choose|k: int| 0 <= k < cache@.len() && cache@[k] == j;
            }
        }
        let r = Sdr { bits, cached_active: cache };
        assert(r@ =~= target);
        r
    }

    /// Allocate an empty SDR with all bits cleared.
    pub fn empty() -> (r: Sdr)
        ensures
            r@ == Set::<usize>::empty(),
    {
        let r = Self::from_packed(packed_zeros(SDR_WIDTH));
        assert(r@ =~= Set::<usize>::empty());
        r
    }

    /// Construct an SDR from a list of active bits. Indices outside
    /// `[0, SDR_WIDTH)` are silently dropped; repeats are harmless.
    pub fn from_bits(bits: &[usize]) -> (r: Sdr)
        ensures
            r@ == bits@.to_set().filter(|b: usize| b < SDR_WIDTH),
    {
        let mut packed = packed_zeros(SDR_WIDTH);
        let mut k: usize = 0;
        while k < bits.len()
            invariant
                k <= bits@.len(),
                packed_bits(packed).len() == SDR_WIDTH,
                forall|i: usize|
                    i < SDR_WIDTH ==> (#[trigger] packed_bits(packed)[i as int]
                        <==> bits@.take(k as int).contains(i)),
            decreases bits@.len() - k,
        {
            let b = bits[k];
            let ghost before = packed_bits(packed);
            if b < SDR_WIDTH {
                packed_set(&mut packed, b, true);
            }
            assert forall|i: usize| i < SDR_WIDTH implies (#[trigger] packed_bits(packed)[i as int]
                <==> bits@.take(k + 1).contains(i)) by {
                let t0 = bits@.take(k as int);
                let t1 = bits@.take(k + 1);
                assert(t1 =~= t0.push(b));
                if t0.contains(i) {
                    let m = choose|m: int| 0 <= m < t0.len() && t0[m] == i;
                    assert(t1[m] == i);
                }
                if t1.contains(i) && i != b {
                    let m = choose|m: int| 0 <= m < t1.len() && t1[m] == i;
                    assert(t0[m] == i);
                }
                if i == b {
                    assert(t1[k as int] == i);
                }
            }
            k += 1;
        }
        let r = Self::from_packed(packed);
        assert(bits@.take(bits@.len() as int) =~= bits@);
        assert(r@ =~= bits@.to_set().filter(|b: usize| b < SDR_WIDTH));
        r
    }

    /// All-zero SDR.
    pub fn zero() -> (r: Sdr)
        ensures
            r@ == Set::<usize>::empty(),
    {
        Self::empty()
    }

    /// Width of the SDR — always [`SDR_WIDTH`].
    pub fn width(&self) -> (r: usize)
        ensures
            r == SDR_WIDTH,
    {
        SDR_WIDTH
    }

    /// The active set is finite, with at most [`SDR_WIDTH`] bits.
    pub proof fn lemma_view_finite(&self)
        ensures
            self@.finite(),
            self@.len() <= SDR_WIDTH,
    {
        lemma_index_set_finite(SDR_WIDTH as int, |i: usize| self.has_bit(i));
    }

    /// Number of active bits.
    pub fn active_count(&self) -> (r: usize)
        ensures
            r == self@.len(),
            r <= SDR_WIDTH,
    {
        proof {
            use_type_invariant(self);
            self.lemma_cache_is_view();
            lemma_index_set_finite(SDR_WIDTH as int, |i: usize| self.has_bit(i));
        }
        self.cached_active.len()
    }

    /// Active bit indices, sorted ascending.
    pub fn active_bits(&self) -> (r: &[usize])
        ensures
            r@ == self.sorted_bits(),
            r@.to_set() == self@,
            strictly_increasing(r@),
            r@.len() == self@.len(),
    {
        proof {
            use_type_invariant(self);
            self.lemma_cache_is_view();
        }
        self.cached_active.as_slice()
    }

    /// Read a single bit; indices outside the width read as inactive.
    pub fn get(&self, index: usize) -> (r: bool)
        ensures
            r == self@.contains(index),
    {
        proof {
            use_type_invariant(self);
        }
        if index < SDR_WIDTH {
            packed_get(&self.bits, index)
        } else {
            false
        }
    }

    /// Set a single bit. Indices outside the width are ignored.
    pub fn set(&mut self, index: usize, value: bool)
        ensures
            final(self)@ == (if index >= SDR_WIDTH {
                old(self)@
            } else if value {
                old(self)@.insert(index)
            } else {
                old(self)@.remove(index)
            }),
    {
        proof {
            use_type_invariant(&*self);
        }
        if index >= SDR_WIDTH {
            return;
        }
        let prev = packed_get(&self.bits, index);
        if prev != value {
            let mut packed = packed_clone(&self.bits);
            packed_set(&mut packed, index, value);
            let next = Self::from_packed(packed);
            *self = next;
        }
        proof {
            let expected = if value {
                old(self)@.insert(index)
            } else {
                old(self)@.remove(index)
            };
            assert(self@ =~= expected);
        }
    }

    /// Re-derive the sorted list of active indices from the bit vector.
    /// The active set does not change.
    pub fn rebuild_cache(&mut self)
        ensures
            final(self)@ == old(self)@,
    {
        proof {
            use_type_invariant(&*self);
        }
        let next = Self::from_packed(packed_clone(&self.bits));
        *self = next;
        assert(self@ =~= old(self)@);
    }

    /// Logical OR with another SDR: every bit active in `other` becomes
    /// active here; bits already active stay active.
    pub fn union_with(&mut self, other: &Sdr)
        ensures
            final(self)@ == old(self)@.union(other@),
    {
        proof {
            use_type_invariant(&*self);
            use_type_invariant(other);
            other.lemma_cache_is_view();
        }
        let mut packed = packed_clone(&self.bits);
        let n = other.cached_active.len();
        let mut k: usize = 0;
        while k < n
            invariant
                n == other.cached_active@.len(),
                k <= n,
                packed_bits(packed).len() == SDR_WIDTH,
                forall|j: int| 0 <= j < n ==> #[trigger] other.cached_active@[j] < SDR_WIDTH,
                forall|i: usize|
                    i < SDR_WIDTH ==> (#[trigger] packed_bits(packed)[i as int] <==> (old(
                        self,
                    ).has_bit(i) || other.cached_active@.take(k as int).contains(i))),
            decreases n - k,
        {
            let b = other.cached_active[k];
            packed_set(&mut packed, b, true);
            assert forall|i: usize| i < SDR_WIDTH implies (#[trigger] packed_bits(packed)[i as int]
                <==> (old(self).has_bit(i) || other.cached_active@.take(k + 1).contains(i))) by {
                let t0 = other.cached_active@.take(k as int);
                let t1 = other.cached_active@.take(k + 1);
                if t0.contains(i) {
                    let m = choose|m: int| 0 <= m < t0.len() && t0[m] == i;
                    assert(t1[m] == i);
                }
                if t1.contains(i) && i != b {
                    let m = choose|m: int| 0 <= m < t1.len() && t1[m] == i;
                    assert(t0[m] == i);
                }
                if i == b {
                    assert(t1[k as int] == i);
                }
            }
            k += 1;
        }
        let next = Self::from_packed(packed);
        *self = next;
        proof {
            assert(other.cached_active@.take(n as int) =~= other.cached_active@);
            assert(self@ =~= old(self)@.union(other@));
        }
    }

    /// Logical AND with another SDR: only bits active in both stay active.
    pub fn intersection_with(&mut self, other: &Sdr)
        ensures
            final(self)@ == old(self)@.intersect(other@),
    {
        proof {
            use_type_invariant(&*self);
            self.lemma_cache_is_view();
        }
        let mut packed = packed_clone(&self.bits);
        let n = self.cached_active.len();
        let mut k: usize = 0;
        while k < n
            invariant
                n == old(self).cached_active@.len(),
                k <= n,
                packed_bits(packed).len() == SDR_WIDTH,
                forall|j: int| 0 <= j < n ==> #[trigger] old(self).cached_active@[j] < SDR_WIDTH,
                forall|i: usize|
                    i < SDR_WIDTH ==> (#[trigger] packed_bits(packed)[i as int] <==> (old(
                        self,
                    ).has_bit(i) && (other@.contains(i) || !old(self).cached_active@.take(
                        k as int,
                    ).contains(i)))),
            decreases n - k,
        {
            let b = self.cached_active[k];
            if !other.get(b) {
                packed_set(&mut packed, b, false);
            }
            assert forall|i: usize| i < SDR_WIDTH implies (#[trigger] packed_bits(packed)[i as int]
                <==> (old(self).has_bit(i) && (other@.contains(i) || !old(
                self,
            ).cached_active@.take(k + 1).contains(i)))) by {
                let t0 = old(self).cached_active@.take(k as int);
                let t1 = old(self).cached_active@.take(k + 1);
                if t0.contains(i) {
                    let m = choose|m: int| 0 <= m < t0.len() && t0[m] == i;
                    assert(t1[m] == i);
                }
                if t1.contains(i) && i != b {
                    let m = choose|m: int| 0 <= m < t1.len() && t1[m] == i;
                    assert(t0[m] == i);
                }
                if i == b {
                    assert(t1[k as int] == i);
                }
            }
            k += 1;
        }
        let next = Self::from_packed(packed);
        *self = next;
        proof {
            assert(old(self).cached_active@.take(n as int) =~= old(self).cached_active@);
            assert forall|i: usize| i < SDR_WIDTH && old(self).has_bit(i) implies old(
                self,
            ).cached_active@.contains(i) by {
                assert(old(self)@.contains(i));
            }
            assert(self@ =~= old(self)@.intersect(other@));
        }
    }

    /// An SDR with the same active bits.
    pub fn cloned_active(&self) -> (r: Sdr)
        ensures
            r@ == self@,
    {
        proof {
            use_type_invariant(self);
            self.lemma_cache_is_view();
        }
        let r = Self::from_bits(self.cached_active.as_slice());
        assert(r@ =~= self@);
        r
    }

    /// Hamming distance: the number of bit positions where the two SDRs
    /// differ, i.e. the size of the symmetric difference of their sets.
    pub fn hamming(&self, other: &Sdr) -> (r: usize)
        ensures
            r == self@.difference(other@).union(other@.difference(self@)).len(),
    {
        proof {
            use_type_invariant(self);
            use_type_invariant(other);
        }
        let ghost p = |i: usize| self.has_bit(i) != other.has_bit(i);
        proof {
            assert(index_set(0, p) =~= Set::<usize>::empty());
        }
        let mut count: usize = 0;
        let mut i: usize = 0;
        while i < SDR_WIDTH
            invariant
                i <= SDR_WIDTH,
                packed_bits(self.bits).len() == SDR_WIDTH,
                packed_bits(other.bits).len() == SDR_WIDTH,
                p == (|i: usize| self.has_bit(i) != other.has_bit(i)),
                count == index_set(i as int, p).len(),
                index_set(i as int, p).finite(),
                count <= i,
            decreases SDR_WIDTH - i,
        {
            proof {
                lemma_index_set_step(i as int, p);
                lemma_index_set_finite(i as int + 1, p);
            }
            if packed_get(&self.bits, i) != packed_get(&other.bits, i) {
                count += 1;
            }
            i += 1;
        }
        assert(index_set(SDR_WIDTH as int, p) =~= self@.difference(other@).union(
            other@.difference(self@),
        ));
        count
    }
}

impl Clone for Sdr {
    /// A copy with the same active bits.
    fn clone(&self) -> (r: Self)
        ensures
            r@ == self@,
    {
        proof {
            use_type_invariant(self);
        }
        let r = Self::from_packed(packed_clone(&self.bits));
        assert(r@ =~= self@);
        r
    }
}

impl Default for Sdr {
    /// The empty SDR.
    fn default() -> (r: Self)
        ensures
            r@ == Set::<usize>::empty(),
    {
        Self::empty()
    }
}



/// Exchanging two positions keeps a sequence repeat-free, keeps its
/// length and keeps the set of its elements.
proof fn lemma_swap_keeps_elements(s: Seq<usize>, i: int, j: int)
    requires
        s.no_duplicates(),
        0 <= i < s.len(),
        0 <= j < s.len(),
    ensures
        s.update(i, s[j]).update(j, s[i]).no_duplicates(),
        s.update(i, s[j]).update(j, s[i]).to_set() == s.to_set(),
        s.update(i, s[j]).update(j, s[i]).len() == s.len(),
{
    let t = s.update(i, s[j]).update(j, s[i]);
    // Each position of `t` reads some position of `s`, one for one.
    let src = |k: int| if k == i { j } else if k == j { i } else { k };
    assert forall|k: int| 0 <= k < t.len() implies t[k] == s[src(k)] by {}
    assert forall|a: int, b: int| 0 <= a < t.len() && 0 <= b < t.len() && a != b implies t[a]
        != t[b] by {
        assert(t[a] == s[src(a)]);
        assert(t[b] == s[src(b)]);
    }
    assert(t.to_set() =~= s.to_set()) by {
        assert forall|x: usize| t.to_set().contains(x) implies s.to_set().contains(x) by {
            let k = choose|k: int| 0 <= k < t.len() && t[k] == x;
            assert(s[src(k)] == x);
        }
        assert forall|x: usize| s.to_set().contains(x) implies t.to_set().contains(x) by {
            let k = choose|k: int| 0 <= k < s.len() && s[k] == x;
            assert(t[src(k)] == x);
        }
    }
}

impl Sdr {
    /// Construct an SDR with `count` active bits (at most [`SDR_WIDTH`]),
    /// drawn at random by a partial Fisher–Yates shuffle of all indices.
    pub fn random_active(rng: &mut StdRng, count: usize) -> (r: Sdr)
        ensures
            r@.len() == if count < SDR_WIDTH { count } else { SDR_WIDTH },
            r@.finite(),
    {
        let count = if count < SDR_WIDTH { count } else { SDR_WIDTH };
        let mut indices: Vec<usize> = Vec::new();
        let mut n: usize = 0;
        while n < SDR_WIDTH
            invariant
                n <= SDR_WIDTH,
                indices@.len() == n,
                forall|k: int| 0 <= k < n ==> #[trigger] indices@[k] == k,
            decreases SDR_WIDTH - n,
        {
            indices.push(n);
            n += 1;
        }
        assert(indices@.no_duplicates());
        let mut i: usize = 0;
        while i < count
            invariant
                count <= SDR_WIDTH,
                i <= count,
                indices@.len() == SDR_WIDTH,
                indices@.no_duplicates(),
                forall|k: int| 0 <= k < SDR_WIDTH ==> #[trigger] indices@[k] < SDR_WIDTH,
            decreases count - i,
        {
            let j = gen_index(rng, i, SDR_WIDTH);
            let a = indices[i];
            let b = indices[j];
            proof {
                lemma_swap_keeps_elements(indices@, i as int, j as int);
            }
            indices.set(i, b);
            indices.set(j, a);
            i += 1;
        }
        indices.truncate(count);
        let r = Self::from_bits(indices.as_slice());
        proof {
            let taken = indices@;
            assert(taken.no_duplicates());
            assert(taken.to_set().filter(|b: usize| b < SDR_WIDTH) =~= taken.to_set());
            taken.unique_seq_to_set();
        }
        r
    }

    /// Keep only `keep` of the active bits, chosen at random (in place).
    /// Nothing changes when at most `keep` bits are active.
    pub fn sparsify_to(&mut self, rng: &mut StdRng, keep: usize)
        ensures
            final(self)@.subset_of(old(self)@),
            final(self)@.len() == if old(self)@.len() <= keep { old(self)@.len() } else { keep as nat },
            old(self)@.len() <= keep ==> final(self)@ == old(self)@,
    {
        proof {
            use_type_invariant(&*self);
            self.lemma_cache_is_view();
        }
        if self.cached_active.len() <= keep {
            return;
        }
        let n = self.cached_active.len();
        let mut order: Vec<usize> = Vec::new();
        let mut c: usize = 0;
        while c < n
            invariant
                n == old(self).cached_active@.len(),
                c <= n,
                order@ == old(self).cached_active@.take(c as int),
            decreases n - c,
        {
            order.push(self.cached_active[c]);
            proof {
                assert(order@ =~= old(self).cached_active@.take(c + 1));
            }
            c += 1;
        }
        proof {
            assert(order@ =~= old(self).cached_active@);
            lemma_increasing_len(order@);
        }
        let mut i: usize = 0;
        while i < keep
            invariant
                keep < n,
                i <= keep,
                order@.len() == n,
                order@.no_duplicates(),
                order@.to_set() == old(self)@,
            decreases keep - i,
        {
            let j = gen_index(rng, i, n);
            let a = order[i];
            let b = order[j];
            proof {
                lemma_swap_keeps_elements(order@, i as int, j as int);
            }
            order.set(i, b);
            order.set(j, a);
            i += 1;
        }
        // Clear every active bit that was not drawn into the first `keep` slots.
        let mut packed = packed_clone(&self.bits);
        let mut k: usize = keep;
        while k < n
            invariant
                keep <= k <= n,
                order@.len() == n,
                order@.to_set() == old(self)@,
                packed_bits(packed).len() == SDR_WIDTH,
                forall|x: usize|
                    x < SDR_WIDTH ==> (#[trigger] packed_bits(packed)[x as int] <==> (old(
                        self,
                    ).has_bit(x) && !order@.subrange(keep as int, k as int).contains(x))),
            decreases n - k,
        {
            let b = order[k];
            proof {
                assert(order@.to_set().contains(b));
            }
            packed_set(&mut packed, b, false);
            assert forall|x: usize| x < SDR_WIDTH implies (#[trigger] packed_bits(packed)[x as int]
                <==> (old(self).has_bit(x) && !order@.subrange(keep as int, k + 1).contains(x))) by {
                let t0 = order@.subrange(keep as int, k as int);
                let t1 = order@.subrange(keep as int, k + 1);
                if t0.contains(x) {
                    let m = choose|m: int| 0 <= m < t0.len() && t0[m] == x;
                    assert(t1[m] == x);
                }
                if t1.contains(x) && x != b {
                    let m = choose|m: int| 0 <= m < t1.len() && t1[m] == x;
                    assert(t0[m] == x);
                }
                if x == b {
                    assert(t1[k - keep] == x);
                }
            }
            k += 1;
        }
        let next = Self::from_packed(packed);
        *self = next;
        proof {
            let front = order@.take(keep as int);
            assert(self@ =~= front.to_set()) by {
                assert forall|x: usize| self@.contains(x) implies front.to_set().contains(x) by {
                    assert(old(self)@.contains(x));
                    let m = choose|m: int| 0 <= m < order@.len() && order@[m] == x;
                    if m >= keep {
                        assert(order@.subrange(keep as int, n as int)[m - keep] == x);
                    } else {
                        assert(front[m] == x);
                    }
                }
                assert forall|x: usize| front.to_set().contains(x) implies self@.contains(x) by {
                    let m = choose|m: int| 0 <= m < front.len() && front[m] == x;
                    assert(order@[m] == x);
                    assert(order@.to_set().contains(x));
                    if order@.subrange(keep as int, n as int).contains(x) {
                        let m2 = choose|m2: int|
                            0 <= m2 < n - keep && order@.subrange(keep as int, n as int)[m2] == x;
                        assert(order@[m2 + keep] == x);
                    }
                }
            }
            assert(front.no_duplicates());
            front.unique_seq_to_set();
        }
    }
}

impl PartialEq for Sdr {
    /// Two SDRs are equal when they have the same active bits.
    fn eq(&self, other: &Self) -> (r: bool) {
        proof {
            use_type_invariant(self);
            use_type_invariant(other);
        }
        let r = packed_eq(&self.bits, &other.bits);
        proof {
            if self@ == other@ {
                assert forall|i: int| 0 <= i < SDR_WIDTH implies packed_bits(self.bits)[i]
                    == packed_bits(other.bits)[i] by {
                    assert(self@.contains(i as usize) == other@.contains(i as usize));
                }
                assert(packed_bits(self.bits) =~= packed_bits(other.bits));
            }
            if r {
                assert(self@ =~= other@);
            }
        }
        r
    }
}

impl Eq for Sdr {}

impl PartialEqSpecImpl for Sdr {
    open spec fn obeys_eq_spec() -> bool {
        true
    }

    open spec fn eq_spec(&self, other: &Self) -> bool {
        self@ == other@
    }
}


/// An SDR plus a timestamp and provenance, as recorded by the hippocampus
/// and used to label global-workspace coalitions.
#[derive(Clone, Debug)]
pub struct LabelledSdr {
    /// The actual representation.
    pub sdr: Sdr,
    /// When this SDR was produced (unix seconds).
    pub timestamp: i64,
    /// Free-form source label, e.g. `"thalamus.gate"`.
    pub source: String,
}

} // verus!
