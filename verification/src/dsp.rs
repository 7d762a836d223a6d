//! Integer helpers shared by the signal-processing code.
use vstd::prelude::*;
use vstd::arithmetic::power2::*;

verus! {

/// `p` is a power of two.
pub open spec fn is_power_of_two(p: int) -> bool {
    exists|k: nat| p == pow2(k)
}

/// Smallest power of two greater than or equal to `n`; `1` for `n == 0`.
///
/// Used to size FFT buffers after zero-padding, where transform lengths must
/// be powers of two. The result must fit in `usize`.
pub fn next_pow2(n: usize) -> (p: usize)
    requires
        n <= usize::MAX / 2 + 1,
    ensures
        is_power_of_two(p as int),
        n <= p,
        p == 1 || (p / 2) < n,
{
    let mut p: usize = 1;
    let ghost mut k: nat = 0;
    proof {
        lemma2_to64();
    }
    while p < n
        invariant
            n <= usize::MAX / 2 + 1,
            p == pow2(k),
            1 <= p,
            p == 1 || (p / 2) < n,
        decreases usize::MAX - p,
    {
        proof {
            lemma_pow2_unfold(k + 1);
        }
        p = p * 2;
        proof {
            k = k + 1;
        }
    }
    p
}

} // verus!
