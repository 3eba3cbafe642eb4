//! Temporal memory — predicts the next SDR given the current one.
//!
//! Each column remembers the bits that fired the last times it was active
//! (at most [`HISTORY_DEPTH`] of them, oldest dropped first). The
//! prediction for an input is the union of the remembered bits of its
//! active columns.
use std::collections::HashMap;
use vstd::prelude::*;
use crate::sdr::counting::{lemma_increasing_len, strictly_increasing};
use crate::sdr::{Sdr, SDR_WIDTH};

verus! {

broadcast use vstd::std_specs::hash::group_hash_axioms;

/// History depth per column (in bits remembered).
pub const HISTORY_DEPTH: usize = 4;

/// The bits predicted from `active` by a column history: every bit below
/// [`SDR_WIDTH`] remembered by some active column.
pub open spec fn predicted_bits(history: Map<usize, Seq<u32>>, active: Set<usize>) -> Set<usize> {
    Set::new(
        |b: usize|
            b < SDR_WIDTH && exists|c: usize, x: u32|
                #![trigger history[c].contains(x)]
                active.contains(c) && history.contains_key(c) && history[c].contains(x) && x as usize
                    == b,
    )
}

/// One bit entering a column history: at capacity the oldest entry is
/// dropped first; the bit is appended unless it is already there.
pub open spec fn remember(h: Seq<u32>, bit: usize) -> Seq<u32> {
    let h1 = if h.len() >= HISTORY_DEPTH { h.drop_first() } else { h };
    if h1.contains(bit as u32) {
        h1
    } else {
        h1.push(bit as u32)
    }
}

/// A column history after the bits of `bits`, in order, have entered it.
pub open spec fn remember_all(h: Seq<u32>, bits: Seq<usize>) -> Seq<u32>
    decreases bits.len(),
{
    if bits.len() == 0 {
        h
    } else {
        remember(remember_all(h, bits.drop_last()), bits.last())
    }
}

/// The column histories after learning an input whose active bits, in
/// ascending order, are `bits`: every active column absorbs all of them.
pub open spec fn learned(history: Map<usize, Seq<u32>>, bits: Seq<usize>) -> Map<usize, Seq<u32>> {
    Map::new(
        |c: usize| history.contains_key(c) || bits.contains(c),
        |c: usize|
            if bits.contains(c) {
                remember_all(if history.contains_key(c) { history[c] } else { Seq::empty() }, bits)
            } else {
                history[c]
            },
    )
}

/// Temporal memory for one cortical region.
#[derive(Debug)]
pub struct TemporalMemory {
    history: HashMap<usize, Vec<u32>>,
    last_active: Option<Sdr>,
    last_prediction: Sdr,
}

impl TemporalMemory {
    /// The remembered bits of every column that has been active.
    pub closed spec fn history(&self) -> Map<usize, Seq<u32>> {
        Map::new(|c: usize| self.history@.contains_key(c), |c: usize| self.history@[c]@)
    }

    /// The prediction produced by the last learning step.
    pub closed spec fn prediction(&self) -> Set<usize> {
        self.last_prediction@
    }

    /// Create a new temporal memory with no history.
    pub fn new() -> (r: TemporalMemory)
        ensures
            r.history() == Map::<usize, Seq<u32>>::empty(),
            r.prediction() == Set::<usize>::empty(),
    {
        let r = TemporalMemory { history: HashMap::new(), last_active: None, last_prediction: Sdr::empty() };
        assert(r.history() =~= Map::<usize, Seq<u32>>::empty());
        r
    }

    /// Last predicted SDR (empty until the first `learn` call).
    pub fn last_prediction(&self) -> (r: &Sdr)
        ensures
            r@ == self.prediction(),
    {
        &self.last_prediction
    }

    /// Predict which bits will fire next, given the current active SDR.
    pub fn predict(&self, active: &Sdr) -> (r: Sdr)
        ensures
            r@ == predicted_bits(self.history(), active@),
    {
        let cols = active.active_bits();
        let mut bits: Vec<usize> = Vec::new();
        let mut k: usize = 0;
        while k < cols.len()
            invariant
                k <= cols@.len(),
                forall|b: usize|
                    bits@.contains(b) <==> exists|c: usize, x: u32|
                        #![trigger self.history()[c].contains(x)]
                        cols@.take(k as int).contains(c) && self.history().contains_key(c)
                            && self.history()[c].contains(x) && x as usize == b,
            decreases cols@.len() - k,
        {
            let col = cols[k];
            let ghost before = bits@;
            match self.history.get(&col) {
                Some(h) => {
                    let mut m: usize = 0;
                    while m < h.len()
                        invariant
                            m <= h@.len(),
                            self.history@.contains_key(col) && self.history@[col] == *h,
                            bits@.len() == before.len() + m,
                            forall|q: int| 0 <= q < before.len() ==> #[trigger] bits@[q] == before[q],
                            forall|q: int|
                                0 <= q < m ==> #[trigger] bits@[before.len() + q] == h@[q] as usize,
                        decreases h@.len() - m,
                    {
                        bits.push(h[m] as usize);
                        m += 1;
                    }
                    proof {
                        assert forall|b: usize|
                            bits@.contains(b) <==> (before.contains(b) || exists|x: u32|
                                #![trigger h@.contains(x)]
                                h@.contains(x) && x as usize == b) by {
                            if bits@.contains(b) {
                                let q = choose|q: int| 0 <= q < bits@.len() && bits@[q] == b;
                                if q >= before.len() {
                                    let x = h@[q - before.len()];
                                    assert(bits@[before.len() + (q - before.len())] == x as usize);
                                    assert(h@.contains(x));
                                } else {
                                    assert(before[q] == b);
                                }
                            }
                            if before.contains(b) {
                                let q = choose|q: int| 0 <= q < before.len() && before[q] == b;
                                assert(bits@[q] == b);
                            }
                            if exists|x: u32| #![trigger h@.contains(x)] h@.contains(x) && x as usize == b {
                                let x = choose|x: u32| #![trigger h@.contains(x)] h@.contains(x) && x as usize == b;
                                let q = choose|q: int| 0 <= q < h@.len() && h@[q] == x;
                                assert(bits@[before.len() + q] == b);
                            }
                        }
                    }
                },
                None => {},
            }
            proof {
                let t0 = cols@.take(k as int);
                let t1 = cols@.take(k + 1);
                assert forall|c: usize| t1.contains(c) <==> (t0.contains(c) || c == col) by {
                    if t1.contains(c) {
                        let q = choose|q: int| 0 <= q < t1.len() && t1[q] == c;
                        if q < k {
                            assert(t0[q] == c);
                        }
                    }
                    if t0.contains(c) {
                        let q = choose|q: int| 0 <= q < t0.len() && t0[q] == c;
                        assert(t1[q] == c);
                    }
                    if c == col {
                        assert(t1[k as int] == c);
                    }
                }
                assert forall|b: usize|
                    bits@.contains(b) <==> exists|c: usize, x: u32|
                        #![trigger self.history()[c].contains(x)]
                        t1.contains(c) && self.history().contains_key(c)
                            && self.history()[c].contains(x) && x as usize == b by {
                    if bits@.contains(b) && !before.contains(b) {
                        let x = choose|x: u32| #![trigger self.history@[col]@.contains(x)] self.history@[col]@.contains(x) && x as usize == b;
                        assert(self.history()[col].contains(x));
                    }
                    if before.contains(b) {
                        let (c, x) = choose|c: usize, x: u32|
                            #![trigger self.history()[c].contains(x)]
                            t0.contains(c) && self.history().contains_key(c)
                                && self.history()[c].contains(x) && x as usize == b;
                        assert(t1.contains(c));
                    }
                    if exists|c: usize, x: u32|
                        #![trigger self.history()[c].contains(x)]
                        t1.contains(c) && self.history().contains_key(c)
                            && self.history()[c].contains(x) && x as usize == b {
                        let (c, x) = choose|c: usize, x: u32|
                            #![trigger self.history()[c].contains(x)]
                            t1.contains(c) && self.history().contains_key(c)
                                && self.history()[c].contains(x) && x as usize == b;
                        if c == col {
                            assert(self.history@[col]@.contains(x));
                        } else {
                            assert(t0.contains(c));
                        }
                    }
                }
            }
            k += 1;
        }
        let r = Sdr::from_bits(bits.as_slice());
        proof {
            assert(cols@.take(cols@.len() as int) =~= cols@);
            assert forall|c: usize| cols@.contains(c) <==> active@.contains(c) by {
                assert(cols@.to_set().contains(c) == cols@.contains(c));
            }
            assert(r@ =~= predicted_bits(self.history(), active@));
        }
        r
    }
}


/// The column histories after the first `k` columns of `bits` have
/// absorbed all of `bits`.
spec fn learned_upto(history: Map<usize, Seq<u32>>, bits: Seq<usize>, k: int) -> Map<
    usize,
    Seq<u32>,
> {
    Map::new(
        |c: usize| history.contains_key(c) || bits.take(k).contains(c),
        |c: usize|
            if bits.take(k).contains(c) {
                remember_all(if history.contains_key(c) { history[c] } else { Seq::empty() }, bits)
            } else {
                history[c]
            },
    )
}

/// Whether `x` occurs in `v`.
fn holds_bit(v: &Vec<u32>, x: u32) -> (r: bool)
    ensures
        r == v@.contains(x),
{
    let mut k: usize = 0;
    while k < v.len()
        invariant
            k <= v@.len(),
            forall|m: int| 0 <= m < k ==> v@[m] != x,
        decreases v@.len() - k,
    {
        if v[k] == x {
            return true;
        }
        k += 1;
    }
    false
}

impl TemporalMemory {
    /// Run one learning step on the SDR that actually occurred: the
    /// prediction is made from the history before the step, then every
    /// active column absorbs the active bits. Returns `(prediction, active)`.
    pub fn learn(&mut self, active: Sdr) -> (r: (Sdr, Sdr))
        ensures
            r.0@ == predicted_bits(old(self).history(), active@),
            r.1@ == active@,
            final(self).prediction() == r.0@,
            final(self).history() == learned(old(self).history(), active.sorted_bits()),
            forall|c: usize| #[trigger] active@.contains(c) ==> {
                &&& final(self).history().contains_key(c)
                &&& final(self).history()[c] == remember_all(
                    if old(self).history().contains_key(c) {
                        old(self).history()[c]
                    } else {
                        Seq::empty()
                    },
                    active.sorted_bits(),
                )
            },
            forall|c: usize| !#[trigger] active@.contains(c) ==> {
                &&& final(self).history().contains_key(c) == old(self).history().contains_key(c)
                &&& old(self).history().contains_key(c) ==> final(self).history()[c] == old(
                    self,
                ).history()[c]
            },
            strictly_increasing(active.sorted_bits()),
            active.sorted_bits().to_set() == active@,
    {
        let prediction = self.predict(&active);
        let cols = active.active_bits();
        proof {
            lemma_increasing_len(cols@);
            assert(learned_upto(old(self).history(), cols@, 0) =~= old(self).history());
            assert forall|q: int| 0 <= q < cols@.len() implies #[trigger] cols@[q] < SDR_WIDTH by {
                assert(cols@.to_set().contains(cols@[q]));
            }
        }
        let mut k: usize = 0;
        while k < cols.len()
            invariant
                k <= cols@.len(),
                cols@.no_duplicates(),
                strictly_increasing(cols@),
                forall|q: int| 0 <= q < cols@.len() ==> #[trigger] cols@[q] < SDR_WIDTH,
                self.history() == learned_upto(old(self).history(), cols@, k as int),
            decreases cols@.len() - k,
        {
            let col = cols[k];
            let ghost hist_before = self.history();
            let ghost raw_before = self.history@;
            let mut h: Vec<u32> = match self.history.remove(&col) {
                Some(v) => v,
                None => Vec::new(),
            };
            let ghost h0 = h@;
            proof {
                assert(!cols@.take(k as int).contains(col)) by {
                    if cols@.take(k as int).contains(col) {
                        let q = choose|q: int| 0 <= q < k && cols@[q] == col;
                    }
                }
                assert(hist_before.contains_key(col) == old(self).history().contains_key(col));
                assert(hist_before.contains_key(col) == raw_before.contains_key(col));
                if raw_before.contains_key(col) {
                    assert(hist_before[col] == raw_before[col]@);
                    assert(hist_before[col] == old(self).history()[col]);
                }
                assert(h0 == if old(self).history().contains_key(col) {
                    old(self).history()[col]
                } else {
                    Seq::<u32>::empty()
                });
            }
            let mut m: usize = 0;
            while m < cols.len()
                invariant
                    m <= cols@.len(),
                    forall|q: int| 0 <= q < cols@.len() ==> #[trigger] cols@[q] < SDR_WIDTH,
                    h@ == remember_all(h0, cols@.take(m as int)),
                decreases cols@.len() - m,
            {
                let bit = cols[m];
                proof {
                    assert(cols@.take(m + 1).drop_last() =~= cols@.take(m as int));
                    assert(cols@.take(m + 1).last() == bit);
                }
                if h.len() >= HISTORY_DEPTH {
                    h.remove(0);
                }
                if !holds_bit(&h, bit as u32) {
                    h.push(bit as u32);
                }
                proof {
                    assert(h@ =~= remember(remember_all(h0, cols@.take(m as int)), bit));
                }
                m += 1;
            }
            proof {
                assert(cols@.take(cols@.len() as int) =~= cols@);
            }
            self.history.insert(col, h);
            proof {
                assert(self.history() =~= learned_upto(old(self).history(), cols@, k + 1)) by {
                    let t0 = cols@.take(k as int);
                    let t1 = cols@.take(k + 1);
                    let target = learned_upto(old(self).history(), cols@, k + 1);
                    assert(self.history@ == raw_before.remove(col).insert(col, h));
                    assert forall|c: usize| t1.contains(c) <==> (t0.contains(c) || c == col) by {
                        if t1.contains(c) {
                            let q = choose|q: int| 0 <= q < t1.len() && t1[q] == c;
                            if q < k {
                                assert(t0[q] == c);
                            }
                        }
                        if t0.contains(c) {
                            let q = choose|q: int| 0 <= q < t0.len() && t0[q] == c;
                            assert(t1[q] == c);
                        }
                        if c == col {
                            assert(t1[k as int] == c);
                        }
                    }
                    assert forall|c: usize| #[trigger] self.history().contains_key(c) == target.contains_key(c) by {
                        if c != col {
                            assert(self.history().contains_key(c) == raw_before.contains_key(c));
                            assert(hist_before.contains_key(c) == raw_before.contains_key(c));
                        }
                    }
                    assert forall|c: usize| #[trigger] self.history().contains_key(c) implies self.history()[c] == target[c] by {
                        if c != col {
                            assert(self.history()[c] == raw_before[c]@);
                            assert(hist_before[c] == raw_before[c]@);
                        } else {
                            assert(self.history()[c] == h@);
                        }
                    }
                }
            }
            k += 1;
        }
        proof {
            assert(cols@.take(cols@.len() as int) =~= cols@);
            assert(self.history() =~= learned(old(self).history(), cols@));
            assert forall|c: usize| #[trigger] active@.contains(c) <==> cols@.contains(c) by {
                assert(cols@.to_set().contains(c) == cols@.contains(c));
            }
        }
        let copy = active.clone();
        self.last_prediction = prediction.clone();
        self.last_active = Some(active);
        (prediction, copy)
    }
}


/// Starting from an empty history, a column remembers a short enough
/// ascending run of bits exactly, in order.
proof fn lemma_remember_short_run(bits: Seq<usize>, m: int)
    requires
        strictly_increasing(bits),
        bits.len() <= HISTORY_DEPTH,
        forall|q: int| 0 <= q < bits.len() ==> #[trigger] bits[q] < SDR_WIDTH,
        0 <= m <= bits.len(),
    ensures
        remember_all(Seq::empty(), bits.take(m)) == Seq::new(m as nat, |i: int| bits[i] as u32),
    decreases m,
{
    if m > 0 {
        lemma_remember_short_run(bits, m - 1);
        let prev = Seq::new((m - 1) as nat, |i: int| bits[i] as u32);
        assert(bits.take(m).drop_last() =~= bits.take(m - 1));
        assert(!prev.contains(bits[m - 1] as u32)) by {
            if prev.contains(bits[m - 1] as u32) {
                let q = choose|q: int| 0 <= q < prev.len() && prev[q] == bits[m - 1] as u32;
                assert(bits[q] < bits[m - 1]);
            }
        }
        assert(remember(prev, bits[m - 1]) =~= Seq::new(m as nat, |i: int| bits[i] as u32));
    }
}

/// A fresh temporal memory that has learned one input with at most
/// [`HISTORY_DEPTH`] active bits predicts exactly that input back.
pub proof fn lemma_fresh_learning_recalls(bits: Seq<usize>)
    requires
        strictly_increasing(bits),
        bits.len() <= HISTORY_DEPTH,
        forall|q: int| 0 <= q < bits.len() ==> #[trigger] bits[q] < SDR_WIDTH,
    ensures
        predicted_bits(learned(Map::empty(), bits), bits.to_set()) == bits.to_set(),
{
    let h = learned(Map::empty(), bits);
    lemma_remember_short_run(bits, bits.len() as int);
    assert(bits.take(bits.len() as int) =~= bits);
    let run = Seq::new(bits.len() as nat, |i: int| bits[i] as u32);
    assert(forall|c: usize| bits.contains(c) ==> h.contains_key(c) && h[c] == run);
    assert forall|b: usize| predicted_bits(h, bits.to_set()).contains(b) <==> bits.to_set().contains(
        b,
    ) by {
        if predicted_bits(h, bits.to_set()).contains(b) {
            let (c, x) = choose|c: usize, x: u32|
                #![trigger h[c].contains(x)]
                bits.to_set().contains(c) && h.contains_key(c) && h[c].contains(x) && x as usize
                    == b;
            assert(bits.contains(c));
            let q = choose|q: int| 0 <= q < run.len() && run[q] == x;
            assert(bits[q] == b);
        }
        if bits.to_set().contains(b) {
            let q = choose|q: int| 0 <= q < bits.len() && bits[q] == b;
            assert(run[q] == b as u32);
            assert(h[b].contains(b as u32));
        }
    }
    assert(predicted_bits(h, bits.to_set()) =~= bits.to_set());
}

/// How many of `n` bits a column keeps: at most [`HISTORY_DEPTH`].
pub open spec fn kept(n: int) -> int {
    if n <= HISTORY_DEPTH {
        n
    } else {
        HISTORY_DEPTH as int
    }
}

/// Starting from an empty history, a column that absorbs an ascending run
/// of bits keeps exactly the last [`HISTORY_DEPTH`] of them, in order.
proof fn lemma_remember_latest_run(bits: Seq<usize>, m: int)
    requires
        strictly_increasing(bits),
        forall|q: int| 0 <= q < bits.len() ==> #[trigger] bits[q] < SDR_WIDTH,
        0 <= m <= bits.len(),
    ensures
        remember_all(Seq::empty(), bits.take(m)) == Seq::new(
            kept(m) as nat,
            |i: int| bits[m - kept(m) + i] as u32,
        ),
    decreases m,
{
    if m > 0 {
        lemma_remember_latest_run(bits, m - 1);
        let prev = Seq::new(kept(m - 1) as nat, |i: int| bits[m - 1 - kept(m - 1) + i] as u32);
        assert(bits.take(m).drop_last() =~= bits.take(m - 1));
        let bit = bits[m - 1];
        let h1 = if prev.len() >= HISTORY_DEPTH {
            prev.drop_first()
        } else {
            prev
        };
        assert(!h1.contains(bit as u32)) by {
            if h1.contains(bit as u32) {
                let q = choose|q: int| 0 <= q < h1.len() && h1[q] == bit as u32;
                if prev.len() >= HISTORY_DEPTH {
                    assert(h1[q] == prev[q + 1]);
                    assert(bits[m - 1 - kept(m - 1) + q + 1] < bit);
                } else {
                    assert(bits[m - 1 - kept(m - 1) + q] < bit);
                }
            }
        }
        assert(remember(prev, bit) =~= Seq::new(
            kept(m) as nat,
            |i: int| bits[m - kept(m) + i] as u32,
        ));
    }
}

/// A column always keeps the last bit it absorbed.
proof fn lemma_remember_all_keeps_last(h: Seq<u32>, bits: Seq<usize>)
    requires
        bits.len() > 0,
    ensures
        remember_all(h, bits).contains(bits.last() as u32),
{
    let prev = remember_all(h, bits.drop_last());
    let b = bits.last();
    let h1 = if prev.len() >= HISTORY_DEPTH {
        prev.drop_first()
    } else {
        prev
    };
    if !h1.contains(b as u32) {
        assert(h1.push(b as u32)[h1.len() as int] == b as u32);
    }
}

/// Learning makes every active column — not only some of them — remember
/// the latest active bit: whatever the history before, a later input that
/// shares any column with the learned one predicts that bit.
pub proof fn lemma_every_active_column_learns(
    history: Map<usize, Seq<u32>>,
    bits: Seq<usize>,
    c: usize,
    later: Set<usize>,
)
    requires
        strictly_increasing(bits),
        forall|q: int| 0 <= q < bits.len() ==> #[trigger] bits[q] < SDR_WIDTH,
        bits.contains(c),
        later.contains(c),
    ensures
        learned(history, bits).contains_key(c),
        learned(history, bits)[c].contains(bits.last() as u32),
        predicted_bits(learned(history, bits), later).contains(bits.last()),
{
    let h = learned(history, bits);
    let start = if history.contains_key(c) {
        history[c]
    } else {
        Seq::empty()
    };
    lemma_remember_all_keeps_last(start, bits);
    let q = choose|q: int| 0 <= q < bits.len() && bits[q] == c;
    assert(bits.last() < SDR_WIDTH);
    assert(h[c].contains(bits.last() as u32));
    assert((bits.last() as u32) as usize == bits.last());
}

/// A fresh temporal memory that has learned one input predicts, from any
/// single one of its active columns, exactly the last [`HISTORY_DEPTH`]
/// active bits of that input (all of them when there are that few).
pub proof fn lemma_fresh_learning_predicts_latest(bits: Seq<usize>, c: usize)
    requires
        strictly_increasing(bits),
        forall|q: int| 0 <= q < bits.len() ==> #[trigger] bits[q] < SDR_WIDTH,
        bits.contains(c),
    ensures
        predicted_bits(learned(Map::empty(), bits), set![c]) == bits.subrange(
            bits.len() - kept(bits.len() as int),
            bits.len() as int,
        ).to_set(),
{
    let n = bits.len() as int;
    let h = learned(Map::empty(), bits);
    lemma_remember_latest_run(bits, n);
    assert(bits.take(n) =~= bits);
    let run = Seq::new(kept(n) as nat, |i: int| bits[n - kept(n) + i] as u32);
    let tail = bits.subrange(n - kept(n), n);
    assert(h.contains_key(c) && h[c] == run);
    assert forall|b: usize| predicted_bits(h, set![c]).contains(b) <==> tail.to_set().contains(b) by {
        if predicted_bits(h, set![c]).contains(b) {
            let (c2, x) = choose|c2: usize, x: u32|
                #![trigger h[c2].contains(x)]
                set![c].contains(c2) && h.contains_key(c2) && h[c2].contains(x) && x as usize == b;
            assert(c2 == c);
            let q = choose|q: int| 0 <= q < run.len() && run[q] == x;
            assert(tail[q] == bits[n - kept(n) + q]);
            assert(bits[n - kept(n) + q] == b);
            assert(tail.contains(b));
        }
        if tail.to_set().contains(b) {
            let q = choose|q: int| 0 <= q < tail.len() && tail[q] == b;
            assert(run[q] == b as u32);
            assert(h[c].contains(b as u32));
            assert(set![c].contains(c));
        }
    }
    assert(predicted_bits(h, set![c]) =~= tail.to_set());
}

} // verus!
