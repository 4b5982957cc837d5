//! Buffer sizes that are powers of two.
use vstd::arithmetic::power2::{lemma_pow2, lemma_pow2_pos, lemma_pow2_unfold, pow2};
use vstd::prelude::*;

verus! {

/// Is `n` a power of two?
pub open spec fn is_power_of_two(n: int) -> bool {
    exists|k: nat| n == #[trigger] pow2(k)
}

/// The smallest power of two that is at least `n`.
pub open spec fn rounded_up(n: int, r: int) -> bool {
    &&& is_power_of_two(r)
    &&& n <= r
    &&& r == 1 || r < 2 * n
}

/// The smallest power of two that is at least `n`.
pub fn next_power_of_two(n: usize) -> (r: usize)
    requires
        n <= usize::MAX / 2 + 1,
    ensures
        rounded_up(n as int, r as int),
        r > 0,
{
    let mut r: usize = 1;
    proof {
        lemma_pow2(0);
        vstd::arithmetic::power2::lemma2_to64();
        assert(is_power_of_two(1)) by {
            assert(1 == pow2(0));
        }
    }
    while r < n
        invariant
            n <= usize::MAX / 2 + 1,
            r >= 1,
            is_power_of_two(r as int),
            r == 1 || r < 2 * n,
        decreases 2 * n - r,
    {
        proof {
            let k = choose|k: nat| r as int == pow2(k);
            lemma_pow2_unfold(k + 1);
            assert(pow2(k + 1) == 2 * r);
        }
        r = r * 2;
    }
    r
}

/// Two powers of two that both round `n` up are the same.
pub proof fn rounding_up_is_unique(n: int, a: int, b: int)
    requires
        rounded_up(n, a),
        rounded_up(n, b),
        n >= 1,
    ensures
        a == b,
{
    let j = choose|k: nat| a == pow2(k);
    let k = choose|k: nat| b == pow2(k);
    vstd::arithmetic::power2::lemma2_to64();
    if j < k {
        lemma_pow2_unfold(k);
        if j + 1 < k {
            vstd::arithmetic::power2::lemma_pow2_strictly_increases(j, (k - 1) as nat);
        }
        lemma_pow2_pos(j);
    }
    if k < j {
        lemma_pow2_unfold(j);
        if k + 1 < j {
            vstd::arithmetic::power2::lemma_pow2_strictly_increases(k, (j - 1) as nat);
        }
        lemma_pow2_pos(k);
    }
}

/// A power of two is its own size, and no size is twice as large as it need be.
pub proof fn a_power_of_two_stays(n: int, r: int)
    requires
        n >= 1,
        rounded_up(n, r),
    ensures
        is_power_of_two(n) ==> r == n,
        n <= r,
        n > 1 ==> r < n + n,
{
    if is_power_of_two(n) {
        rounding_up_is_unique(n, n, r);
    }
}

} // verus!
