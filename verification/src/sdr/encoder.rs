//! Encoders — converters from values into SDRs.
//!
//! Every encoder produces an SDR of the system's standard [`SDR_WIDTH`].
//! The category and sequence encoders draw their bits from generators
//! seeded by the value itself; the bucketed layout shared by the scalar
//! encoders is [`bucket_bits`].
use std::collections::HashMap;
use std::collections::VecDeque;
use rand::rngs::StdRng;
use vstd::prelude::*;
use crate::rng::{gen_index, seeded_rng};
use super::{Sdr, SDR_WIDTH};
use vstd::arithmetic::div_mod::{lemma_fundamental_div_mod, lemma_fundamental_div_mod_converse};

verus! {

broadcast use vstd::std_specs::hash::group_hash_axioms;

/// Active bits per category SDR: 2% of the width, rounded down.
pub const CATEGORY_ACTIVE_BITS: usize = 40;

/// Encoder trait — every concrete encoder produces an SDR of the system's
/// standard [`SDR_WIDTH`].
pub trait Encoder<T> {
    /// Encode the supplied value into an SDR.
    fn encode(&mut self, value: T) -> Sdr;

    /// Width of every output SDR — always [`SDR_WIDTH`].
    fn output_width(&self) -> (r: usize)
        ensures
            r == SDR_WIDTH,
    {
        SDR_WIDTH
    }

    /// Active bits per output — encoded count.
    fn active_per_output(&self) -> usize;
}

/// Category encoder — maps category identifiers to stable random SDRs.
///
/// The SDR of a category is drawn once, from a generator seeded with the
/// category id, and cached: the same category always produces the same SDR.
#[derive(Debug)]
pub struct CategoryEncoder {
    bits_per_category: usize,
    overlap: usize,
    cache: HashMap<u32, Sdr>,
}

impl CategoryEncoder {
    /// The SDRs drawn so far, by category.
    pub closed spec fn cached(&self) -> Map<u32, Set<usize>> {
        Map::new(|c: u32| self.cache@.contains_key(c), |c: u32| self.cache@[c]@)
    }

    /// Active bits in every SDR this encoder produces.
    pub closed spec fn spec_bits_per_category(&self) -> usize {
        self.bits_per_category
    }

    #[verifier::type_invariant]
    closed spec fn inv(&self) -> bool {
        &&& self.bits_per_category == CATEGORY_ACTIVE_BITS
        &&& forall|c: u32| #[trigger]
            self.cache@.contains_key(c) ==> self.cache@[c]@.len() == CATEGORY_ACTIVE_BITS
    }

    /// New encoder with an empty cache; `categories` is accepted for
    /// interface compatibility. Every SDR has [`CATEGORY_ACTIVE_BITS`]
    /// active bits.
    pub fn new(categories: u32) -> (r: CategoryEncoder)
        ensures
            r.cached() == Map::<u32, Set<usize>>::empty(),
            r.spec_bits_per_category() == CATEGORY_ACTIVE_BITS,
    {
        let r = CategoryEncoder {
            bits_per_category: SDR_WIDTH * 2 / 100,
            overlap: 4,
            cache: HashMap::new(),
        };
        assert(r.cached() =~= Map::<u32, Set<usize>>::empty());
        r
    }
}

/// What one call of [`CategoryEncoder::encode`] does: a cached category
/// gives back its cached SDR and changes nothing; a new one is drawn with
/// the full number of active bits and cached.
pub open spec fn encodes(
    before: CategoryEncoder,
    category: u32,
    out: Set<usize>,
    after: CategoryEncoder,
) -> bool {
    &&& out.len() == CATEGORY_ACTIVE_BITS
    &&& after.cached() == before.cached().insert(category, out)
    &&& before.cached().contains_key(category) ==> out == before.cached()[category]
}

/// Encoding the same category twice, with any encoder state in between
/// that has kept the first result cached, gives the same SDR.
pub proof fn lemma_category_reproducible(
    e0: CategoryEncoder,
    category: u32,
    first: Set<usize>,
    e1: CategoryEncoder,
    second: Set<usize>,
    e2: CategoryEncoder,
)
    requires
        encodes(e0, category, first, e1),
        encodes(e1, category, second, e2),
    ensures
        second == first,
        e2.cached() == e1.cached(),
{
    assert(e1.cached().contains_key(category));
    assert(e2.cached() =~= e1.cached());
}

impl Encoder<u32> for CategoryEncoder {
    fn encode(&mut self, category: u32) -> (r: Sdr)
        ensures
            encodes(*old(self), category, r@, *final(self)),
    {
        proof {
            use_type_invariant(&*self);
        }
        match self.cache.get(&category) {
            Some(cached) => {
                let r = cached.cloned_active();
                proof {
                    assert(self.cached().insert(category, r@) =~= self.cached());
                }
                return r;
            },
            None => {},
        }
        let mut rng = seeded_rng(category as u64);
        let s = Sdr::random_active(&mut rng, self.bits_per_category);
        let kept = s.cloned_active();
        let mut cache: HashMap<u32, Sdr> = HashMap::new();
        std::mem::swap(&mut cache, &mut self.cache);
        cache.insert(category, kept);
        self.cache = cache;
        proof {
            assert(self.cached() =~= old(self).cached().insert(category, s@));
        }
        s
    }

    fn active_per_output(&self) -> (r: usize)
        ensures
            r == CATEGORY_ACTIVE_BITS,
    {
        proof {
            use_type_invariant(self);
        }
        self.bits_per_category
    }
}

/// Sequence encoder — lights up bits for the last `history_len` values fed
/// in, so the present SDR overlaps with the recent past.
#[derive(Debug)]
pub struct SequenceEncoder {
    history: VecDeque<u64>,
    history_len: usize,
}

/// The window after feeding `value`: appended, then trimmed from the front
/// to at most `len` values.
pub open spec fn windowed(history: Seq<u64>, value: u64, len: usize) -> Seq<u64> {
    let h = history.push(value);
    if h.len() > len {
        h.subrange(h.len() - len, h.len() as int)
    } else {
        h
    }
}

/// Bits drawn per value in a window of `window` values:
/// `SDR_WIDTH / window / 64`, but at least one, so that every value in the
/// window — the current one included — is mixed into the SDR.
pub open spec fn bits_per_value(window: usize) -> nat {
    if SDR_WIDTH / window / 64 > 0 {
        (SDR_WIDTH / window / 64) as nat
    } else {
        1
    }
}

impl SequenceEncoder {
    /// The values currently summarised, oldest first.
    pub closed spec fn recent(&self) -> Seq<u64> {
        self.history@
    }

    /// How many past values the encoded SDR summarises.
    pub closed spec fn window(&self) -> usize {
        self.history_len
    }

    /// `history_len` is how many past values the encoded SDR summarises.
    pub fn new(history_len: usize) -> (r: SequenceEncoder)
        ensures
            r.recent() == Seq::<u64>::empty(),
            r.window() == history_len,
    {
        SequenceEncoder { history: VecDeque::with_capacity(history_len), history_len }
    }

    /// Feed a new value and get the encoded SDR: each value in the window
    /// contributes [`bits_per_value`] random bits (at least one), drawn from
    /// a generator seeded by the value and its position; repeats count once.
    pub fn feed(&mut self, value: u64) -> (r: Sdr)
        ensures
            final(self).window() == old(self).window(),
            final(self).recent() == windowed(old(self).recent(), value, old(self).window()),
            old(self).window() > 0 ==> 1 <= r@.len() <= final(self).recent().len()
                * bits_per_value(old(self).window()),
            old(self).window() == 0 ==> r@ == Set::<usize>::empty(),
    {
        self.history.push_back(value);
        let ghost pushed = old(self).history@.push(value);
        proof {
            assert(self.history@ =~= pushed.subrange(0, pushed.len() as int));
        }
        while self.history.len() > self.history_len
            invariant
                self.history_len == old(self).history_len,
                pushed == old(self).history@.push(value),
                self.history@.len() <= pushed.len(),
                self.history@.len() >= (if pushed.len() > self.history_len {
                    self.history_len as int
                } else {
                    pushed.len() as int
                }),
                self.history@ == pushed.subrange(
                    pushed.len() - self.history@.len(),
                    pushed.len() as int,
                ),
            decreases self.history@.len(),
        {
            let ghost before = self.history@;
            self.history.pop_front();
            proof {
                assert(self.history@ =~= pushed.subrange(
                    pushed.len() - self.history@.len(),
                    pushed.len() as int,
                ));
            }
        }
        proof {
            if pushed.len() <= self.history_len {
                assert(self.history@ =~= pushed);
            }
        }
        let n = self.history.len();
        if n == 0 {
            let r = Sdr::empty();
            return r;
        }
        let share = SDR_WIDTH / self.history_len / 64;
        let per_value = if share > 0 {
            share
        } else {
            1
        };
        let mut seeds: Vec<u64> = Vec::new();
        let mut i: usize = 0;
        while i < n
            invariant
                n == self.history@.len(),
                i <= n,
                seeds@.len() == i,
            decreases n - i,
        {
            let v = self.history[i];
            seeds.push(v ^ ((i as u64) << 56u64));
            i += 1;
        }
        seeded_bits(seeds.as_slice(), per_value)
    }
}

/// The bits drawn by one seeded generator per seed: `per_seed` draws over
/// the whole width from each, in seed order, repeats dropped.
///
/// Which bits come out depends on the generators and is not stated; at most
/// `per_seed` per seed, and at least one when there is a draw at all.
pub fn seeded_bits(seeds: &[u64], per_seed: usize) -> (r: Sdr)
    ensures
        r@.len() <= seeds@.len() * per_seed,
        seeds@.len() > 0 && per_seed > 0 ==> r@.len() >= 1,
{
    let n = seeds.len();
    let mut indices: Vec<usize> = Vec::new();
    let mut i: usize = 0;
    while i < n
        invariant
            n == seeds@.len(),
            i <= n,
            indices@.no_duplicates(),
            indices@.len() <= i * per_seed,
            i > 0 && per_seed > 0 ==> indices@.len() >= 1,
            forall|k: int| 0 <= k < indices@.len() ==> #[trigger] indices@[k] < SDR_WIDTH,
        decreases n - i,
    {
        let mut rng: StdRng = seeded_rng(seeds[i]);
        let mut d: usize = 0;
        while d < per_seed
            invariant
                d <= per_seed,
                indices@.no_duplicates(),
                indices@.len() <= i * per_seed + d,
                (i > 0 && per_seed > 0) || d > 0 ==> indices@.len() >= 1,
                forall|k: int| 0 <= k < indices@.len() ==> #[trigger] indices@[k] < SDR_WIDTH,
            decreases per_seed - d,
        {
            let bit = gen_index(&mut rng, 0, SDR_WIDTH);
            if !holds(&indices, bit) {
                let ghost before = indices@;
                indices.push(bit);
                proof {
                    assert forall|a: int, b: int|
                        0 <= a < indices@.len() && 0 <= b < indices@.len() && a != b implies indices@[a]
                        != indices@[b] by {
                        if a < before.len() && b < before.len() {
                            assert(indices@[a] == before[a] && indices@[b] == before[b]);
                        } else if a == before.len() {
                            assert(indices@[b] == before[b]);
                            assert(before.contains(before[b]));
                        } else {
                            assert(indices@[a] == before[a]);
                            assert(before.contains(before[a]));
                        }
                    }
                }
            } else {
                proof {
                    assert(indices@.len() >= 1);
                }
            }
            d += 1;
        }
        proof {
            assert(i * per_seed + per_seed == (i + 1) * per_seed) by (nonlinear_arith);
        }
        i += 1;
    }
    let r = Sdr::from_bits(indices.as_slice());
    proof {
        indices@.unique_seq_to_set();
        vstd::seq_lib::seq_to_set_is_finite(indices@);
        vstd::set_lib::lemma_len_subset(r@, indices@.to_set());
        assert(r@ =~= indices@.to_set());
    }
    r
}

/// Whether `x` occurs in `v`.
fn holds(v: &Vec<usize>, x: usize) -> (r: bool)
    ensures
        r == v@.contains(x),
{
    let mut k: usize = 0;
    while k < v.len()
        invariant
            k <= v@.len(),
            forall|m: int| 0 <= m < k ==> v@[m] != x,
        decreases v@.len() - k,
    {
        if v[k] == x {
            return true;
        }
        k += 1;
    }
    false
}


/// The bucket that a raw bucket position falls in: wrapped around modulo
/// the bucket count when the input space is periodic, clamped to the end
/// buckets otherwise.
pub open spec fn bucket_of(raw: int, buckets: int, periodic: bool) -> int {
    if periodic {
        raw % buckets
    } else if raw < 0 {
        0
    } else if raw >= buckets {
        buckets - 1
    } else {
        raw
    }
}

/// The first of the `active` adjacent buckets lit for position `pos`: the
/// window is centred on `pos` (the first `active / 2` buckets before it);
/// on a non-periodic input space it slides inward at the edges so that it
/// stays within the buckets.
pub open spec fn window_start(pos: int, active: int, buckets: int, periodic: bool) -> int {
    let s = pos - active / 2;
    if periodic {
        s
    } else if s < 0 {
        0
    } else if s > buckets - active {
        buckets - active
    } else {
        s
    }
}

/// The bits of bucketed encoding: the `active` adjacent buckets of the
/// window for `pos`, each lighting all of its `bits_per_bucket` bits.
pub open spec fn bucketed(
    pos: int,
    active: int,
    buckets: int,
    bits_per_bucket: int,
    periodic: bool,
) -> Set<usize> {
    Set::new(
        |b: usize|
            b < SDR_WIDTH && exists|o: int|
                0 <= o < active && #[trigger] bucket_of(
                    window_start(pos, active, buckets, periodic) + o,
                    buckets,
                    periodic,
                ) == b as int / bits_per_bucket,
    )
}

proof fn lemma_bucket_bit(bucket: int, bits_per_bucket: int, buckets: int, bit: int)
    requires
        0 <= bucket < buckets,
        0 <= bit < bits_per_bucket,
        buckets * bits_per_bucket <= SDR_WIDTH,
    ensures
        0 <= bucket * bits_per_bucket + bit < SDR_WIDTH,
        (bucket * bits_per_bucket + bit) / bits_per_bucket == bucket,
        (bucket * bits_per_bucket + bit) % bits_per_bucket == bit,
{
    assert(0 <= bucket * bits_per_bucket + bit < buckets * bits_per_bucket) by (nonlinear_arith)
        requires
            0 <= bucket < buckets,
            0 <= bit < bits_per_bucket,
    ;
    lemma_fundamental_div_mod_converse(
        bucket * bits_per_bucket + bit,
        bits_per_bucket,
        bucket,
        bit,
    );
}

/// Two positions of one window (fewer positions than buckets) fall in
/// different buckets.
proof fn lemma_window_buckets_distinct(start: int, o1: int, o2: int, buckets: int, periodic: bool)
    requires
        0 <= o1 < o2,
        o2 - o1 < buckets,
        !periodic ==> 0 <= start + o1 && start + o2 < buckets,
    ensures
        bucket_of(start + o1, buckets, periodic) != bucket_of(start + o2, buckets, periodic),
{
    if periodic {
        let a = start + o1;
        let b = start + o2;
        lemma_fundamental_div_mod(a, buckets);
        lemma_fundamental_div_mod(b, buckets);
        if a % buckets == b % buckets {
            let qa = a / buckets;
            let qb = b / buckets;
            let r = a % buckets;
            assert(false) by (nonlinear_arith)
                requires
                    a == buckets * qa + r,
                    b == buckets * qb + r,
                    0 < b - a < buckets,
            ;
        }
    }
}

/// On a periodic input space the window is centred on the position for
/// every position, wrapping around the ends: the lit buckets are exactly
/// `(pos - active / 2 + o) mod buckets` for `o` in `0..active`, so the
/// first position neighbours the last.
pub proof fn lemma_periodic_window_wraps(pos: int, active: int, buckets: int, bits_per_bucket: int)
    requires
        0 < buckets,
    ensures
        bucketed(pos, active, buckets, bits_per_bucket, true) == Set::new(
            |b: usize|
                b < SDR_WIDTH && exists|o: int|
                    0 <= o < active && #[trigger] ((pos - active / 2 + o) % buckets) == b as int
                        / bits_per_bucket,
        ),
{
    let lhs = bucketed(pos, active, buckets, bits_per_bucket, true);
    let rhs = Set::new(
        |b: usize|
            b < SDR_WIDTH && exists|o: int|
                0 <= o < active && #[trigger] ((pos - active / 2 + o) % buckets) == b as int
                    / bits_per_bucket,
    );
    assert forall|b: usize| lhs.contains(b) <==> rhs.contains(b) by {
        if lhs.contains(b) {
            let o = choose|o: int|
                0 <= o < active && #[trigger] bucket_of(
                    window_start(pos, active, buckets, true) + o,
                    buckets,
                    true,
                ) == b as int / bits_per_bucket;
            assert((pos - active / 2 + o) % buckets == b as int / bits_per_bucket);
        }
        if rhs.contains(b) {
            let o = choose|o: int|
                0 <= o < active && #[trigger] ((pos - active / 2 + o) % buckets) == b as int
                    / bits_per_bucket;
            assert(bucket_of(window_start(pos, active, buckets, true) + o, buckets, true)
                == b as int / bits_per_bucket);
        }
    }
    assert(lhs =~= rhs);
}

/// Moving one step forward on the circle.
proof fn lemma_mod_step(x: int, c: int, n: int)
    requires
        0 < n,
        0 <= c < n,
    ensures
        ((x + 1) % n == c) <==> (x % n == (c + n - 1) % n),
{
    lemma_fundamental_div_mod(x, n);
    let q = x / n;
    let r = x % n;
    assert(x + 1 == q * n + r + 1 && x + 1 == (q + 1) * n + (r + 1 - n)) by (nonlinear_arith)
        requires
            x == n * q + r,
    ;
    if r + 1 == n {
        lemma_fundamental_div_mod_converse(x + 1, n, q + 1, 0);
    } else {
        lemma_fundamental_div_mod_converse(x + 1, n, q, r + 1);
    }
    if c == 0 {
        lemma_fundamental_div_mod_converse(c + n - 1, n, 0, n - 1);
    } else {
        lemma_fundamental_div_mod_converse(c + n - 1, n, 1, c - 1);
    }
}

/// The periodic encoding is invariant under rotation: the buckets lit for
/// position `pos + 1` are those lit for `pos`, each moved on by one bucket
/// around the circle.
pub proof fn lemma_periodic_rotation(pos: int, active: int, buckets: int, bits_per_bucket: int, c: int)
    requires
        0 < buckets,
        0 <= c < buckets,
    ensures
        (exists|o: int| 0 <= o < active && #[trigger] bucket_of(
            window_start(pos + 1, active, buckets, true) + o,
            buckets,
            true,
        ) == c) <==> (exists|o: int| 0 <= o < active && #[trigger] bucket_of(
            window_start(pos, active, buckets, true) + o,
            buckets,
            true,
        ) == (c + buckets - 1) % buckets),
{
    assert forall|o: int| #[trigger] bucket_of(window_start(pos + 1, active, buckets, true) + o, buckets, true)
        == c <==> bucket_of(window_start(pos, active, buckets, true) + o, buckets, true) == (c
        + buckets - 1) % buckets by {
        lemma_mod_step(pos - active / 2 + o, c, buckets);
        assert(pos + 1 - active / 2 + o == (pos - active / 2 + o) + 1);
    }
    if exists|o: int| 0 <= o < active && #[trigger] bucket_of(
        window_start(pos + 1, active, buckets, true) + o,
        buckets,
        true,
    ) == c {
        let o = choose|o: int| 0 <= o < active && #[trigger] bucket_of(
            window_start(pos + 1, active, buckets, true) + o,
            buckets,
            true,
        ) == c;
        assert(bucket_of(window_start(pos, active, buckets, true) + o, buckets, true) == (c
            + buckets - 1) % buckets);
    }
    if exists|o: int| 0 <= o < active && #[trigger] bucket_of(
        window_start(pos, active, buckets, true) + o,
        buckets,
        true,
    ) == (c + buckets - 1) % buckets {
        let o = choose|o: int| 0 <= o < active && #[trigger] bucket_of(
            window_start(pos, active, buckets, true) + o,
            buckets,
            true,
        ) == (c + buckets - 1) % buckets;
        assert(bucket_of(window_start(pos + 1, active, buckets, true) + o, buckets, true) == c);
    }
}

/// Light the bits of `active` adjacent buckets around bucket `pos` — the
/// layout of the scalar encoders. `buckets` buckets of `bits_per_bucket`
/// bits each fit in the SDR width, and `pos` is a bucket. Exactly `active`
/// buckets light, so the SDR has `active * bits_per_bucket` active bits.
pub fn bucket_bits(
    pos: i64,
    active: usize,
    buckets: usize,
    bits_per_bucket: usize,
    periodic: bool,
) -> (r: Sdr)
    requires
        0 < buckets,
        0 < bits_per_bucket,
        buckets * bits_per_bucket <= SDR_WIDTH,
        active <= buckets,
        0 <= pos < buckets,
    ensures
        r@ == bucketed(pos as int, active as int, buckets as int, bits_per_bucket as int, periodic),
        r@.len() == active * bits_per_bucket,
{
    proof {
        assert(buckets <= buckets * bits_per_bucket) by (nonlinear_arith)
            requires
                0 < bits_per_bucket,
        ;
    }
    let half = (active / 2) as i64;
    let nb = buckets as i64;
    let na = active as i64;
    let centred: i64 = pos - half;
    let first: i64 = if periodic {
        centred
    } else if centred < 0 {
        0
    } else if centred > nb - na {
        nb - na
    } else {
        centred
    };
    let ghost start = window_start(pos as int, active as int, buckets as int, periodic);
    assert(first == start);
    let mut indices: Vec<usize> = Vec::new();
    let mut o: usize = 0;
    while o < active
        invariant
            0 < buckets,
            0 < bits_per_bucket,
            buckets * bits_per_bucket <= SDR_WIDTH,
            buckets <= SDR_WIDTH,
            active <= buckets,
            0 <= pos < buckets,
            nb == buckets,
            start == window_start(pos as int, active as int, buckets as int, periodic),
            first == start,
            o <= active,
            indices@.no_duplicates(),
            indices@.len() == o * bits_per_bucket,
            forall|b: usize|
                indices@.contains(b) <==> (b < SDR_WIDTH && exists|o2: int|
                    0 <= o2 < o && #[trigger] bucket_of(start + o2, buckets as int, periodic)
                        == b as int / bits_per_bucket as int),
        decreases active - o,
    {
        let raw: i64 = first + o as i64;
        let bucket: i64 = if periodic {
            if raw < 0 {
                raw + nb
            } else if raw >= nb {
                raw - nb
            } else {
                raw
            }
        } else if raw < 0 {
            0
        } else if raw >= nb {
            nb - 1
        } else {
            raw
        };
        proof {
            if periodic {
                if raw < 0 {
                    lemma_fundamental_div_mod_converse(raw as int, buckets as int, -1, raw + nb);
                } else if raw >= nb {
                    lemma_fundamental_div_mod_converse(raw as int, buckets as int, 1, raw - nb);
                } else {
                    lemma_fundamental_div_mod_converse(raw as int, buckets as int, 0, raw as int);
                }
            }
            assert(bucket == bucket_of(start + o, buckets as int, periodic));
            assert forall|o2: int| 0 <= o2 < o implies #[trigger] bucket_of(
                start + o2,
                buckets as int,
                periodic,
            ) != bucket by {
                lemma_window_buckets_distinct(start, o2, o as int, buckets as int, periodic);
            }
        }
        let start_bucket = bucket as usize;
        let ghost before = indices@;
        let mut bit: usize = 0;
        while bit < bits_per_bucket
            invariant
                0 < bits_per_bucket,
                buckets * bits_per_bucket <= SDR_WIDTH,
                0 <= start_bucket < buckets,
                bit <= bits_per_bucket,
                before.no_duplicates(),
                forall|b: usize| #[trigger] before.contains(b) ==> (b as int) / (bits_per_bucket as int) != start_bucket,
                indices@.no_duplicates(),
                indices@.len() == before.len() + bit,
                forall|b: usize|
                    #[trigger] indices@.contains(b) <==> (before.contains(b) || (b < SDR_WIDTH && (b as int) / (bits_per_bucket as int) == start_bucket && (b as int) % (
                        bits_per_bucket as int) < bit)),
            decreases bits_per_bucket - bit,
        {
            proof {
                lemma_bucket_bit(start_bucket as int, bits_per_bucket as int, buckets as int, bit as int);
                assert(start_bucket * bits_per_bucket + bit < SDR_WIDTH);
            }
            let b = start_bucket * bits_per_bucket + bit;
            let ghost prev = indices@;
            proof {
                if prev.contains(b) {
                    assert(!before.contains(b));
                    assert((b as int) % (bits_per_bucket as int) < bit);
                }
            }
            indices.push(b);
            proof {
                assert forall|x: usize| #[trigger] indices@.contains(x) <==> (before.contains(x) || (x
                    < SDR_WIDTH && (x as int) / (bits_per_bucket as int) == start_bucket && (x as int) % (
                    bits_per_bucket as int) < bit + 1)) by {
                    let in_bucket = x < SDR_WIDTH && (x as int) / (bits_per_bucket as int) == start_bucket;
                    let m = (x as int) % (bits_per_bucket as int);
                    assert(prev.contains(x) <==> (before.contains(x) || (in_bucket && m < bit)));
                    assert(indices@ == prev.push(b));
                    assert(indices@.contains(x) <==> (prev.contains(x) || x == b)) by {
                        if indices@.contains(x) && x != b {
                            let q = choose|q: int| 0 <= q < indices@.len() && indices@[q] == x;
                            assert(prev[q] == x);
                        }
                        if prev.contains(x) {
                            let q = choose|q: int| 0 <= q < prev.len() && prev[q] == x;
                            assert(indices@[q] == x);
                        }
                        if x == b {
                            assert(indices@[prev.len() as int] == x);
                        }
                    }
                    assert(x == b ==> (in_bucket && m == bit));
                    if in_bucket && m == bit {
                        lemma_fundamental_div_mod(x as int, bits_per_bucket as int);
                        assert(x as int == bits_per_bucket * start_bucket + bit);
                        assert(x == b) by (nonlinear_arith)
                            requires
                                x as int == bits_per_bucket * start_bucket + bit,
                                b == start_bucket * bits_per_bucket + bit,
                        ;
                    }
                }
                assert forall|a: int, c: int|
                    0 <= a < indices@.len() && 0 <= c < indices@.len() && a != c implies indices@[a]
                    != indices@[c] by {
                    if a < prev.len() && c < prev.len() {
                        assert(indices@[a] == prev[a] && indices@[c] == prev[c]);
                    } else if a == prev.len() {
                        assert(indices@[c] == prev[c]);
                        assert(prev.contains(prev[c]));
                    } else {
                        assert(indices@[a] == prev[a]);
                        assert(prev.contains(prev[a]));
                    }
                }
            }
            bit += 1;
        }
        proof {
            assert(indices@.len() == (o + 1) * bits_per_bucket) by (nonlinear_arith)
                requires
                    indices@.len() == before.len() + bits_per_bucket,
                    before.len() == o * bits_per_bucket,
            ;
            assert forall|b: usize|
                indices@.contains(b) <==> (b < SDR_WIDTH && exists|o2: int|
                    0 <= o2 < o + 1 && #[trigger] bucket_of(start + o2, buckets as int, periodic)
                        == b as int / bits_per_bucket as int) by {
                if b < SDR_WIDTH && (b as int) / (bits_per_bucket as int) == start_bucket {
                    assert((b as int) % (bits_per_bucket as int) < bits_per_bucket);
                }
                if b < SDR_WIDTH && exists|o2: int|
                    0 <= o2 < o + 1 && #[trigger] bucket_of(start + o2, buckets as int, periodic)
                        == b as int / bits_per_bucket as int {
                    let o2 = choose|o2: int|
                        0 <= o2 < o + 1 && #[trigger] bucket_of(start + o2, buckets as int, periodic)
                            == b as int / bits_per_bucket as int;
                    if o2 == o {
                        assert((b as int) % (bits_per_bucket as int) < bits_per_bucket);
                    }
                }
            }
        }
        o += 1;
    }
    let r = Sdr::from_bits(indices.as_slice());
    proof {
        assert(r@ =~= indices@.to_set());
        indices@.unique_seq_to_set();
    }
    assert(r@ =~= bucketed(pos as int, active as int, buckets as int, bits_per_bucket as int, periodic));
    r
}

} // verus!
