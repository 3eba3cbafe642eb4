//! Slot placement in working memory.
use vstd::prelude::*;

verus! {

/// Where a new item goes in working memory, given which slots hold an item
/// (`occupied`) and which have decayed below the relevance floor
/// (`stale`): the first empty slot; failing that, the first stale slot;
/// failing that, a new slot at the end (index `occupied.len()`) while fewer
/// than `capacity` slots exist; otherwise nowhere.
pub fn choose_slot(occupied: &[bool], stale: &[bool], capacity: usize) -> (r: Option<usize>)
    requires
        occupied@.len() == stale@.len(),
    ensures
        match r {
            Some(i) => {
                ||| (i < occupied@.len() && !occupied@[i as int] && forall|k: int|
                    0 <= k < i ==> occupied@[k])
                ||| (i < occupied@.len() && (forall|k: int| 0 <= k < occupied@.len() ==> occupied@[k])
                    && stale@[i as int] && forall|k: int| 0 <= k < i ==> !stale@[k])
                ||| (i == occupied@.len() && i < capacity && (forall|k: int|
                    0 <= k < occupied@.len() ==> occupied@[k]) && forall|k: int|
                    0 <= k < stale@.len() ==> !stale@[k])
            },
            None => occupied@.len() >= capacity && (forall|k: int|
                0 <= k < occupied@.len() ==> occupied@[k]) && forall|k: int|
                0 <= k < stale@.len() ==> !stale@[k],
        },
{
    let n = occupied.len();
    let mut i: usize = 0;
    while i < n
        invariant
            i <= n,
            n == occupied@.len(),
            forall|k: int| 0 <= k < i ==> occupied@[k],
        decreases n - i,
    {
        if !occupied[i] {
            return Some(i);
        }
        i += 1;
    }
    let mut j: usize = 0;
    while j < n
        invariant
            j <= n,
            n == stale@.len(),
            n == occupied@.len(),
            forall|k: int| 0 <= k < n ==> occupied@[k],
            forall|k: int| 0 <= k < j ==> !stale@[k],
        decreases n - j,
    {
        if stale[j] {
            return Some(j);
        }
        j += 1;
    }
    if n < capacity {
        Some(n)
    } else {
        None
    }
}

} // verus!
