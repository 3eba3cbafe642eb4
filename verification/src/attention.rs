//! The bit layout of the attention spotlight.
use vstd::prelude::*;
use vstd::arithmetic::div_mod::lemma_fundamental_div_mod;
use crate::sdr::{Sdr, SDR_WIDTH};

verus! {

/// The width of the block that each of `n` focused channels covers.
pub open spec fn focus_block(n: int) -> int {
    if n <= 1 { SDR_WIDTH as int } else { SDR_WIDTH as int / n }
}

/// The SDR of a focus of attention on the `chosen` channels (best first):
/// the width is split into one equal block per chosen channel, all of whose
/// bits are lit, and each channel's own index is lit too.
pub fn focus_bits(chosen: &[usize]) -> (r: Sdr)
    ensures
        r@ == Set::new(
            |b: usize|
                b < SDR_WIDTH && ((b as int) < chosen@.len() * focus_block(chosen@.len() as int)
                    || chosen@.contains(b)),
        ),
{
    let n = chosen.len();
    let block = SDR_WIDTH / (if n > 1 { n } else { 1 });
    proof {
        if n > 1 {
            lemma_fundamental_div_mod(SDR_WIDTH as int, n as int);
            let w = SDR_WIDTH as int;
            let m = w % (n as int);
            assert(block == w / (n as int));
            assert(n * block <= SDR_WIDTH) by (nonlinear_arith)
                requires
                    w == (n as int) * (w / (n as int)) + m,
                    m >= 0,
                    block == w / (n as int),
                    w == SDR_WIDTH,
            ;
        }
        assert(n * block <= SDR_WIDTH || n == 0) by (nonlinear_arith)
            requires
                n <= 1 ==> block == SDR_WIDTH,
                n > 1 ==> n * block <= SDR_WIDTH,
        ;
    }
    let mut bits: Vec<usize> = Vec::new();
    let mut i: usize = 0;
    while i < n
        invariant
            n == chosen@.len(),
            block == focus_block(n as int),
            n == 0 || n * block <= SDR_WIDTH,
            i <= n,
            forall|b: usize|
                #[trigger] bits@.contains(b) <==> ((b as int) < i * block || chosen@.take(
                    i as int,
                ).contains(b)),
        decreases n - i,
    {
        proof {
            assert(i * block + block <= n * block) by (nonlinear_arith)
                requires
                    i < n,
            ;
        }
        let start = i * block;
        let ghost before = bits@;
        let mut b: usize = start;
        while b < start + block
            invariant
                start == i * block,
                start + block <= SDR_WIDTH,
                start <= b <= start + block,
                forall|x: usize|
                    #[trigger] bits@.contains(x) <==> (before.contains(x) || (start <= x < b)),
            decreases start + block - b,
        {
            let ghost prev = bits@;
            bits.push(b);
            proof {
                assert forall|x: usize| #[trigger] bits@.contains(x) <==> (before.contains(x) || (
                start <= x < b + 1)) by {
                    if bits@.contains(x) && x != b {
                        let q = choose|q: int| 0 <= q < bits@.len() && bits@[q] == x;
                        assert(prev[q] == x);
                    }
                    if prev.contains(x) {
                        let q = choose|q: int| 0 <= q < prev.len() && prev[q] == x;
                        assert(bits@[q] == x);
                    }
                    if x == b {
                        assert(bits@[prev.len() as int] == x);
                    }
                }
            }
            b += 1;
        }
        let c = chosen[i];
        let ghost prev = bits@;
        bits.push(c);
        proof {
            assert((i + 1) * block == i * block + block) by (nonlinear_arith);
            let t0 = chosen@.take(i as int);
            let t1 = chosen@.take(i + 1);
            assert forall|x: usize| #[trigger] bits@.contains(x) <==> ((x as int) < (i + 1) * block
                || t1.contains(x)) by {
                if bits@.contains(x) && x != c {
                    let q = choose|q: int| 0 <= q < bits@.len() && bits@[q] == x;
                    assert(prev[q] == x);
                }
                if prev.contains(x) {
                    let q = choose|q: int| 0 <= q < prev.len() && prev[q] == x;
                    assert(bits@[q] == x);
                }
                if x == c {
                    assert(bits@[prev.len() as int] == x);
                    assert(t1[i as int] == x);
                }
                if t0.contains(x) {
                    let q = choose|q: int| 0 <= q < t0.len() && t0[q] == x;
                    assert(t1[q] == x);
                }
                if t1.contains(x) && x != c {
                    let q = choose|q: int| 0 <= q < t1.len() && t1[q] == x;
                    assert(t0[q] == x);
                }
            }
        }
        i += 1;
    }
    let r = Sdr::from_bits(bits.as_slice());
    proof {
        assert(chosen@.take(n as int) =~= chosen@);
        assert(r@ =~= Set::new(
            |b: usize|
                b < SDR_WIDTH && ((b as int) < chosen@.len() * focus_block(chosen@.len() as int)
                    || chosen@.contains(b)),
        ));
    }
    r
}

} // verus!
