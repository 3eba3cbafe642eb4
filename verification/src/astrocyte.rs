//! The coupling of astrocytes — one per cortical column — for slow calcium
//! waves: a small-world ring, each cell coupled to its two ring neighbours
//! and, in rings of more than four cells, to one randomly drawn cell.
//!
//! The cells' calcium dynamics are simulated outside the library.
use rand::rngs::StdRng;
use vstd::prelude::*;
use crate::rng::gen_index;

verus! {

/// The ring neighbour before cell `i` of `n`.
pub open spec fn ring_prev(i: int, n: int) -> int {
    if i == 0 {
        n - 1
    } else {
        i - 1
    }
}

/// The ring neighbour after cell `i` of `n`.
pub open spec fn ring_next(i: int, n: int) -> int {
    if i == n - 1 {
        0
    } else {
        i + 1
    }
}

/// The neighbour lists of a ring of `n` cells, in cell order: each starts
/// with the cell's previous and next ring neighbours; when `n > 4`, one
/// cell is drawn from `rng` per cell (in cell order) and appended when it
/// is not the cell itself.
pub fn ring_neighbours(n: usize, rng: &mut StdRng) -> (r: Vec<Vec<usize>>)
    ensures
        r@.len() == n,
        forall|i: int|
            #![trigger r@[i]]
            0 <= i < n ==> {
                &&& 2 <= r@[i]@.len() <= 3
                &&& r@[i]@[0] == ring_prev(i, n as int)
                &&& r@[i]@[1] == ring_next(i, n as int)
                &&& n <= 4 ==> r@[i]@.len() == 2
                &&& r@[i]@.len() == 3 ==> r@[i]@[2] < n && r@[i]@[2] != i
            },
{
    let mut cells: Vec<Vec<usize>> = Vec::new();
    let mut i: usize = 0;
    while i < n
        invariant
            i <= n,
            cells@.len() == i,
            forall|k: int|
                #![trigger cells@[k]]
                0 <= k < i ==> {
                    &&& 2 <= cells@[k]@.len() <= 3
                    &&& cells@[k]@[0] == ring_prev(k, n as int)
                    &&& cells@[k]@[1] == ring_next(k, n as int)
                    &&& n <= 4 ==> cells@[k]@.len() == 2
                    &&& cells@[k]@.len() == 3 ==> cells@[k]@[2] < n && cells@[k]@[2] != k
                },
        decreases n - i,
    {
        let prev = if i == 0 { n - 1 } else { i - 1 };
        let next = if i == n - 1 { 0 } else { i + 1 };
        let mut nb: Vec<usize> = Vec::new();
        nb.push(prev);
        nb.push(next);
        if n > 4 {
            let r = gen_index(rng, 0, n);
            if r != i {
                nb.push(r);
            }
        }
        cells.push(nb);
        i += 1;
    }
    cells
}

} // verus!
