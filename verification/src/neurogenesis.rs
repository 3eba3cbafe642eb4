//! Apoptosis bookkeeping of the neurogenic controller: per-column streaks
//! of low-permanence ticks, and which columns are pruned this tick.
use vstd::prelude::*;
use crate::sdr::counting::{index_set, lemma_index_set_finite, lemma_index_set_step};

verus! {

/// Live birth / apoptosis decision for one column.
#[derive(Debug, Clone, Copy, PartialEq, Eq, Structural)]
pub enum NeurogenicVerdict {
    /// Column survives; no change.
    Survive,
    /// Column should be pruned.
    Apoptose,
}

/// The streaks after one tick: a column below the permanence floor extends
/// its streak by one (saturating), any other column resets it to zero.
/// Streaks of the wrong length start over from zero.
pub open spec fn next_streaks(old: Seq<u32>, below_floor: Seq<bool>) -> Seq<u32> {
    Seq::new(
        below_floor.len(),
        |i: int|
            if below_floor[i] {
                let s: u32 = if old.len() == below_floor.len() { old[i] } else { 0 };
                if s == u32::MAX { u32::MAX } else { (s + 1) as u32 }
            } else {
                0u32
            },
    )
}

/// Column `i` is spared before column `j`: a shorter streak first, and the
/// lower index among equal streaks.
pub open spec fn spared_before(streaks: Seq<u32>, i: int, j: int) -> bool {
    streaks[i] < streaks[j] || (streaks[i] == streaks[j] && i < j)
}

/// The columns whose streak has reached `apoptosis_ticks`.
pub open spec fn prone(streaks: Seq<u32>, apoptosis_ticks: u32) -> Set<usize> {
    index_set(streaks.len() as int, |i: usize| streaks[i as int] >= apoptosis_ticks)
}

/// How many prone columns are pruned out of `n` columns when `prone` are
/// prone and at least `min_columns` must survive: all of them while that
/// leaves `min_columns`, otherwise down to exactly `min_columns` survivors,
/// and none when there are no more than `min_columns` columns at all.
pub open spec fn prune_count(prone: nat, n: nat, min_columns: nat) -> nat {
    if prone + min_columns <= n {
        prone
    } else if min_columns <= n {
        (n - min_columns) as nat
    } else {
        0
    }
}

/// The columns that a verdict list prunes.
pub open spec fn pruned(verdicts: Seq<NeurogenicVerdict>) -> Set<usize> {
    index_set(verdicts.len() as int, |i: usize| verdicts[i as int] == NeurogenicVerdict::Apoptose)
}

/// One apoptosis tick. `below_floor[i]` says whether column `i`'s mean
/// permanence is below the apoptosis floor this tick. Updates the streaks
/// and returns one verdict per column: a column is pruned only once its
/// streak reaches `apoptosis_ticks`, and prone columns are spared —
/// shortest streak first, lowest index among ties — until at least
/// `min_columns` survive (all of them when there are no more columns than
/// that): the network never drops below its minimum column count.
pub fn apoptosis_tick(
    streaks: &mut Vec<u32>,
    below_floor: &[bool],
    apoptosis_ticks: u32,
    min_columns: usize,
) -> (r: Vec<NeurogenicVerdict>)
    ensures
        final(streaks)@ == next_streaks(old(streaks)@, below_floor@),
        r@.len() == below_floor@.len(),
        pruned(r@).subset_of(prone(final(streaks)@, apoptosis_ticks)),
        pruned(r@).len() == prune_count(
            prone(final(streaks)@, apoptosis_ticks).len(),
            below_floor@.len(),
            min_columns as nat,
        ),
        r@.len() - pruned(r@).len() >= (if min_columns <= r@.len() {
            min_columns as int
        } else {
            r@.len() as int
        }),
        forall|i: int, j: int|
            0 <= i < r@.len() && 0 <= j < r@.len() && prone(final(streaks)@, apoptosis_ticks).contains(
                i as usize,
            ) && r@[i] == NeurogenicVerdict::Survive && r@[j] == NeurogenicVerdict::Apoptose
                ==> spared_before(final(streaks)@, i, j),
{
    let n = below_floor.len();
    let ghost target = next_streaks(old(streaks)@, below_floor@);
    if streaks.len() != n {
        let mut fresh: Vec<u32> = Vec::new();
        let mut k: usize = 0;
        while k < n
            invariant
                k <= n,
                fresh@ == Seq::new(k as nat, |i: int| 0u32),
            decreases n - k,
        {
            fresh.push(0);
            k += 1;
            assert(fresh@ =~= Seq::new(k as nat, |i: int| 0u32));
        }
        *streaks = fresh;
    }
    let ghost base = streaks@;
    assert(forall|i: int|
        0 <= i < n ==> #[trigger] base[i] == (if old(streaks)@.len() == n {
            old(streaks)@[i]
        } else {
            0u32
        }));
    // First pass: streak update and the prone columns.
    let mut candidates: Vec<bool> = Vec::new();
    let mut prone_count: usize = 0;
    let mut k: usize = 0;
    let ghost p = |i: usize| target[i as int] >= apoptosis_ticks;
    proof {
        assert(index_set(0, p) =~= Set::<usize>::empty());
    }
    while k < n
        invariant
            n == below_floor@.len(),
            target == next_streaks(old(streaks)@, below_floor@),
            p == (|i: usize| target[i as int] >= apoptosis_ticks),
            k <= n,
            streaks@.len() == n,
            forall|i: int| 0 <= i < k ==> #[trigger] streaks@[i] == target[i],
            forall|i: int| k <= i < n ==> #[trigger] streaks@[i] == base[i],
            forall|i: int|
                0 <= i < n ==> #[trigger] base[i] == (if old(streaks)@.len() == n {
                    old(streaks)@[i]
                } else {
                    0u32
                }),
            candidates@.len() == k,
            forall|i: int| 0 <= i < k ==> #[trigger] candidates@[i] == (target[i] >= apoptosis_ticks),
            index_set(k as int, p).finite(),
            prone_count == index_set(k as int, p).len(),
            prone_count <= k,
        decreases n - k,
    {
        proof {
            lemma_index_set_step(k as int, p);
            lemma_index_set_finite(k as int + 1, p);
        }
        let s = streaks[k];
        let next = if below_floor[k] {
            s.saturating_add(1)
        } else {
            0
        };
        streaks.set(k, next);
        let c = next >= apoptosis_ticks;
        candidates.push(c);
        if c {
            prone_count += 1;
        }
        k += 1;
    }
    proof {
        assert(streaks@ =~= target);
        assert(index_set(n as int, p) =~= prone(target, apoptosis_ticks));
        assert(index_set(n as int, |i: usize| candidates@[i as int]) =~= index_set(n as int, p));
    }
    // Second pass: spare prone columns while fewer than `min_columns` survive.
    let mut remaining = prone_count;
    let ghost goal = prune_count(prone(target, apoptosis_ticks).len(), n as nat, min_columns as nat);
    proof {
        lemma_index_set_finite(n as int, p);
    }
    while n - remaining < min_columns
        invariant
            n == below_floor@.len(),
            streaks@ == target,
            target.len() == n,
            goal == prune_count(prone(target, apoptosis_ticks).len(), n as nat, min_columns as nat),
            candidates@.len() == n,
            remaining <= n,
            forall|i: int| 0 <= i < n && #[trigger] candidates@[i] ==> target[i] >= apoptosis_ticks,
            index_set(n as int, |i: usize| candidates@[i as int]).finite(),
            remaining == index_set(n as int, |i: usize| candidates@[i as int]).len(),
            remaining >= goal,
            remaining < prone(target, apoptosis_ticks).len() ==> n - remaining <= min_columns,
            remaining <= prone(target, apoptosis_ticks).len(),
            forall|i: int, j: int|
                #![trigger candidates@[i], candidates@[j]]
                0 <= i < n && 0 <= j < n && target[i] >= apoptosis_ticks && !candidates@[i]
                    && candidates@[j] ==> spared_before(target, i, j),
        ensures
            remaining == goal,
            streaks@ == target,
            candidates@.len() == n,
            forall|i: int| 0 <= i < n && #[trigger] candidates@[i] ==> target[i] >= apoptosis_ticks,
            index_set(n as int, |i: usize| candidates@[i as int]).finite(),
            remaining == index_set(n as int, |i: usize| candidates@[i as int]).len(),
            forall|i: int, j: int|
                #![trigger candidates@[i], candidates@[j]]
                0 <= i < n && 0 <= j < n && target[i] >= apoptosis_ticks && !candidates@[i]
                    && candidates@[j] ==> spared_before(target, i, j),
        decreases remaining,
    {
        // The prone column that is spared first.
        let mut best: usize = n;
        let mut i: usize = 0;
        while i < n
            invariant
                n == candidates@.len(),
                streaks@ == target,
                target.len() == n,
                i <= n,
                best == n || (best < i && candidates@[best as int]),
                best == n ==> forall|m: int| 0 <= m < i ==> !candidates@[m],
                best < n ==> forall|m: int|
                    0 <= m < i && #[trigger] candidates@[m] && m != best ==> spared_before(
                        target,
                        best as int,
                        m,
                    ),
            decreases n - i,
        {
            if candidates[i] && (best == n || streaks[i] < streaks[best]) {
                best = i;
            }
            i += 1;
        }
        if best == n {
            proof {
                assert(index_set(n as int, |i: usize| candidates@[i as int]) =~= Set::<
                    usize,
                >::empty());
            }
            break;
        }
        let ghost before = candidates@;
        candidates.set(best, false);
        proof {
            assert(index_set(n as int, |i: usize| candidates@[i as int]) =~= index_set(
                n as int,
                |i: usize| before[i as int],
            ).remove(best));
        }
        remaining -= 1;
    }
    let mut verdicts: Vec<NeurogenicVerdict> = Vec::new();
    let mut v: usize = 0;
    while v < n
        invariant
            v <= n,
            n == candidates@.len(),
            verdicts@.len() == v,
            forall|i: int|
                0 <= i < v ==> #[trigger] verdicts@[i] == if candidates@[i] {
                    NeurogenicVerdict::Apoptose
                } else {
                    NeurogenicVerdict::Survive
                },
        decreases n - v,
    {
        if candidates[v] {
            verdicts.push(NeurogenicVerdict::Apoptose);
        } else {
            verdicts.push(NeurogenicVerdict::Survive);
        }
        v += 1;
    }
    proof {
        assert(pruned(verdicts@) =~= index_set(n as int, |i: usize| candidates@[i as int]));
    }
    verdicts
}

} // verus!
