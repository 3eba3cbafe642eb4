//! Counting facts shared by the SDR operations: the finite index sets that
//! the loops enumerate, and how they grow by one index at a time.
use vstd::prelude::*;

verus! {

/// The indices below `n` that satisfy `p`.
pub open spec fn index_set(n: int, p: spec_fn(usize) -> bool) -> Set<usize> {
    Set::new(|i: usize| (i as int) < n && p(i))
}

/// Every element strictly smaller than the next: sorted, without repeats.
pub open spec fn strictly_increasing(s: Seq<usize>) -> bool {
    forall|i: int, j: int| 0 <= i < j < s.len() ==> s[i] < s[j]
}

/// Adding index `n` to the range adds it to the set exactly when it satisfies `p`.
pub proof fn lemma_index_set_step(n: int, p: spec_fn(usize) -> bool)
    requires
        0 <= n <= usize::MAX,
    ensures
        index_set(n + 1, p) == (if p(n as usize) {
            index_set(n, p).insert(n as usize)
        } else {
            index_set(n, p)
        }),
{
    if p(n as usize) {
        assert(index_set(n + 1, p) =~= index_set(n, p).insert(n as usize));
    } else {
        assert(index_set(n + 1, p) =~= index_set(n, p));
    }
}

/// An index set below `n` is finite and holds at most `n` elements.
pub proof fn lemma_index_set_finite(n: int, p: spec_fn(usize) -> bool)
    requires
        0 <= n <= usize::MAX + 1,
    ensures
        index_set(n, p).finite(),
        index_set(n, p).len() <= n,
    decreases n,
{
    if n == 0 {
        assert(index_set(n, p) =~= Set::empty());
    } else {
        lemma_index_set_finite(n - 1, p);
        lemma_index_set_step(n - 1, p);
    }
}

/// A strictly increasing sequence has no repeats, so it has as many
/// elements as the set of its elements.
pub proof fn lemma_increasing_len(s: Seq<usize>)
    requires
        strictly_increasing(s),
    ensures
        s.no_duplicates(),
        s.to_set().len() == s.len(),
        s.to_set().finite(),
{
    assert(s.no_duplicates()) by {
        assert forall|i: int, j: int| 0 <= i < s.len() && 0 <= j < s.len() && i != j implies s[i]
            != s[j] by {
            if i < j {
            } else {
            }
        }
    }
    s.unique_seq_to_set();
    vstd::seq_lib::seq_to_set_is_finite(s);
}

/// Growing a repeat-free prefix by one element adds that element to the
/// set of its elements that satisfy `p`, exactly when it satisfies `p`.
pub proof fn lemma_prefix_filter_step(s: Seq<usize>, j: int, p: spec_fn(usize) -> bool)
    requires
        s.no_duplicates(),
        0 <= j < s.len(),
    ensures
        !s.take(j).to_set().contains(s[j]),
        s.take(j).to_set().filter(p).finite(),
        s.take(j + 1).to_set().filter(p) == (if p(s[j]) {
            s.take(j).to_set().filter(p).insert(s[j])
        } else {
            s.take(j).to_set().filter(p)
        }),
{
    let a = s.take(j);
    let b = s.take(j + 1);
    assert(!a.to_set().contains(s[j])) by {
        if a.to_set().contains(s[j]) {
            let k = choose|k: int| 0 <= k < a.len() && a[k] == s[j];
            assert(s[k] == s[j]);
        }
    }
    vstd::seq_lib::seq_to_set_is_finite(a);
    assert(b.to_set() =~= a.to_set().insert(s[j])) by {
        assert forall|x: usize| b.to_set().contains(x) implies a.to_set().insert(s[j]).contains(
            x,
        ) by {
            let k = choose|k: int| 0 <= k < b.len() && b[k] == x;
            if k < j {
                assert(a[k] == x);
            }
        }
        assert forall|x: usize| a.to_set().insert(s[j]).contains(x) implies b.to_set().contains(
            x,
        ) by {
            if x == s[j] {
                assert(b[j] == x);
            } else {
                let k = choose|k: int| 0 <= k < a.len() && a[k] == x;
                assert(b[k] == x);
            }
        }
    }
    if p(s[j]) {
        assert(b.to_set().filter(p) =~= a.to_set().filter(p).insert(s[j]));
    } else {
        assert(b.to_set().filter(p) =~= a.to_set().filter(p));
    }
}

} // verus!
