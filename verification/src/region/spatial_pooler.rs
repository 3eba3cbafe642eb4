//! The integer core of the spatial pooler: how much of its input each
//! column sees through its connected synapses, and which columns win.
use vstd::prelude::*;
use crate::sdr::counting::{index_set, lemma_index_set_finite, lemma_index_set_step, strictly_increasing};
use crate::sdr::Sdr;

verus! {

/// Column `i` ranks ahead of column `j`: a higher score, or the lower index
/// among equal scores.
pub open spec fn ranks_ahead(scores: Seq<usize>, i: int, j: int) -> bool {
    scores[i] > scores[j] || (scores[i] == scores[j] && i < j)
}

/// A column's overlap with its input: how many of its connected input bits
/// are active.
pub fn column_overlap(connected: &[usize], input: &Sdr) -> (r: usize)
    ensures
        r == index_set(connected@.len() as int, |k: usize| input@.contains(connected@[k as int])).len(),
{
    let ghost p = |k: usize| input@.contains(connected@[k as int]);
    proof {
        assert(index_set(0, p) =~= Set::<usize>::empty());
    }
    let mut n: usize = 0;
    let mut k: usize = 0;
    while k < connected.len()
        invariant
            k <= connected@.len(),
            p == (|k: usize| input@.contains(connected@[k as int])),
            index_set(k as int, p).finite(),
            n == index_set(k as int, p).len(),
            n <= k,
        decreases connected@.len() - k,
    {
        proof {
            lemma_index_set_step(k as int, p);
            lemma_index_set_finite(k as int + 1, p);
        }
        if input.get(connected[k]) {
            n += 1;
        }
        k += 1;
    }
    n
}

/// The winning columns: the `target` best-ranked columns by score (higher
/// score first, lower index among ties), or all of them if there are
/// fewer; returned in ascending order.
pub fn select_winners(scores: &[usize], target: usize) -> (r: Vec<usize>)
    ensures
        strictly_increasing(r@),
        r@.len() == if target < scores@.len() { target as nat } else { scores@.len() },
        forall|k: int| 0 <= k < r@.len() ==> #[trigger] r@[k] < scores@.len(),
        forall|w: usize, l: usize|
            #![trigger r@.contains(w), r@.contains(l)]
            r@.contains(w) && !r@.contains(l) && l < scores@.len() ==> ranks_ahead(
                scores@,
                w as int,
                l as int,
            ),
{
    let n = scores.len();
    let goal = if target < n { target } else { n };
    let mut chosen: Vec<bool> = Vec::new();
    let mut z: usize = 0;
    while z < n
        invariant
            z <= n,
            chosen@ == Seq::new(z as nat, |i: int| false),
        decreases n - z,
    {
        chosen.push(false);
        z += 1;
        assert(chosen@ =~= Seq::new(z as nat, |i: int| false));
    }
    proof {
        assert(index_set(n as int, |i: usize| chosen@[i as int]) =~= Set::<usize>::empty());
    }
    let mut t: usize = 0;
    while t < goal
        invariant
            n == scores@.len(),
            goal <= n,
            t <= goal,
            chosen@.len() == n,
            index_set(n as int, |i: usize| chosen@[i as int]).finite(),
            index_set(n as int, |i: usize| chosen@[i as int]).len() == t,
            forall|c: int, u: int|
                #![trigger chosen@[c], chosen@[u]]
                0 <= c < n && 0 <= u < n && chosen@[c] && !chosen@[u] ==> ranks_ahead(scores@, c, u),
        decreases goal - t,
    {
        // The best-ranked column not chosen yet.
        let mut best: usize = n;
        let mut i: usize = 0;
        while i < n
            invariant
                n == scores@.len(),
                n == chosen@.len(),
                i <= n,
                best == n || (best < i && !chosen@[best as int]),
                best == n ==> forall|m: int| 0 <= m < i ==> #[trigger] chosen@[m],
                best < n ==> forall|m: int|
                    0 <= m < i && !#[trigger] chosen@[m] && m != best ==> ranks_ahead(
                        scores@,
                        best as int,
                        m,
                    ),
            decreases n - i,
        {
            if !chosen[i] && (best == n || scores[i] > scores[best]) {
                best = i;
            }
            i += 1;
        }
        if best == n {
            proof {
                assert(index_set(n as int, |i: usize| chosen@[i as int]) =~= index_set(
                    n as int,
                    |i: usize| true,
                ));
                assert(index_set(n as int, |i: usize| true).len() == n) by {
                    lemma_full_index_set(n as int);
                }
                assert(false);
            }
        }
        let ghost before = chosen@;
        chosen.set(best, true);
        proof {
            assert(index_set(n as int, |i: usize| chosen@[i as int]) =~= index_set(
                n as int,
                |i: usize| before[i as int],
            ).insert(best));
        }
        t += 1;
    }
    let mut winners: Vec<usize> = Vec::new();
    let mut w: usize = 0;
    while w < n
        invariant
            w <= n,
            n == chosen@.len(),
            strictly_increasing(winners@),
            forall|k: int| 0 <= k < winners@.len() ==> #[trigger] winners@[k] < w,
            forall|x: usize| #[trigger] winners@.contains(x) <==> (x < w && chosen@[x as int]),
        decreases n - w,
    {
        let ghost before = winners@;
        if chosen[w] {
            winners.push(w);
            proof {
                assert forall|x: usize| #[trigger] winners@.contains(x) <==> (x < w + 1 && chosen@[x as int]) by {
                    if winners@.contains(x) && x != w {
                        let q = choose|q: int| 0 <= q < winners@.len() && winners@[q] == x;
                        assert(before[q] == x);
                    }
                    if before.contains(x) {
                        let q = choose|q: int| 0 <= q < before.len() && before[q] == x;
                        assert(winners@[q] == x);
                    }
                    if x == w {
                        assert(winners@[before.len() as int] == x);
                    }
                }
            }
        }
        w += 1;
    }
    proof {
        assert(winners@.to_set() =~= index_set(n as int, |i: usize| chosen@[i as int]));
        crate::sdr::counting::lemma_increasing_len(winners@);
    }
    winners
}

/// Every index below `n` is in the full index set, which has `n` elements.
proof fn lemma_full_index_set(n: int)
    requires
        0 <= n <= usize::MAX,
    ensures
        index_set(n, |i: usize| true).finite(),
        index_set(n, |i: usize| true).len() == n,
    decreases n,
{
    if n == 0 {
        assert(index_set(0, |i: usize| true) =~= Set::<usize>::empty());
    } else {
        lemma_full_index_set(n - 1);
        lemma_index_set_step(n - 1, |i: usize| true);
    }
}

} // verus!
