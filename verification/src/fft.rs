//! The index work of a radix-2 transform: its length, the order that its input
//! is put into, and which places meet in which step.
use crate::sizes;
use vstd::arithmetic::power2::{lemma_pow2, lemma_pow2_pos, lemma_pow2_unfold, pow2};
use vstd::prelude::*;

verus! {

/// The transform length with which correlating `a_len` samples up to the lag
/// `max_lag` does not wrap round.
pub fn required_len(a_len: usize, max_lag: usize) -> (n: usize)
    requires
        a_len + max_lag + 1 <= usize::MAX / 2 + 1,
    ensures
        sizes::rounded_up(a_len + max_lag + 1, n as int),
        n >= a_len + max_lag + 1,
{
    sizes::next_power_of_two(a_len + max_lag + 1)
}

/// The lowest `bits` bits of `i` in reverse.
pub open spec fn reversed(i: int, bits: nat) -> int
    decreases bits,
{
    if bits == 0 {
        0
    } else {
        (i % 2) * pow2((bits - 1) as nat) + reversed(i / 2, (bits - 1) as nat)
    }
}

proof fn lemma_reversed_bounds(i: int, bits: nat)
    ensures
        0 <= reversed(i, bits) < pow2(bits),
    decreases bits,
{
    lemma_pow2_pos(bits);
    if bits > 0 {
        lemma_reversed_bounds(i / 2, (bits - 1) as nat);
        lemma_pow2_unfold(bits);
        let p = pow2((bits - 1) as nat) as int;
        assert((i % 2) * p <= p && 0 <= (i % 2) * p) by (nonlinear_arith)
            requires
                0 <= i % 2 <= 1,
                p > 0,
        ;
    }
}

/// Reversing a number whose top bit is apart: the top bit goes to the bottom.
proof fn lemma_reversed_top(top: int, low: int, bits: nat)
    requires
        0 <= top <= 1,
        0 <= low < pow2(bits),
    ensures
        reversed(top * pow2(bits) + low, bits + 1) == 2 * reversed(low, bits) + top,
    decreases bits,
{
    let p = pow2(bits) as int;
    let x = top * p + low;
    lemma_pow2(0);
    vstd::arithmetic::power2::lemma2_to64();
    if bits == 0 {
        assert(p == 1 && low == 0 && x == top) by (nonlinear_arith)
            requires
                p == 1,
                0 <= low < p,
                x == top * p + low,
        ;
        assert(reversed(x, 1) == (x % 2) * pow2(0) + reversed(x / 2, 0));
        assert(reversed(low, 0) == 0);
        assert((x % 2) * 1 == x % 2);
    } else {
        let q = pow2((bits - 1) as nat) as int;
        lemma_pow2_unfold(bits);
        assert(x % 2 == low % 2 && x / 2 == top * q + low / 2) by {
            assert(x == 2 * (top * q) + low) by (nonlinear_arith)
                requires
                    p == 2 * q,
                    x == top * p + low,
            ;
        }
        assert(0 <= low / 2 < q);
        lemma_reversed_top(top, low / 2, (bits - 1) as nat);
        assert(reversed(x, bits + 1) == (x % 2) * p + reversed(x / 2, bits));
        assert(reversed(low, bits) == (low % 2) * q + reversed(low / 2, (bits - 1) as nat));
        assert((low % 2) * p == 2 * ((low % 2) * q)) by (nonlinear_arith)
            requires
                p == 2 * q,
        ;
    }
}

/// Reversing twice gives the number back: the reordering swaps pairs.
pub proof fn reversing_twice_gives_the_number_back(i: int, bits: nat)
    requires
        0 <= i < pow2(bits),
    ensures
        reversed(reversed(i, bits), bits) == i,
    decreases bits,
{
    lemma_pow2(0);
    vstd::arithmetic::power2::lemma2_to64();
    if bits > 0 {
        let b = (bits - 1) as nat;
        lemma_pow2_unfold(bits);
        lemma_reversed_bounds(i / 2, b);
        reversing_twice_gives_the_number_back(i / 2, b);
        lemma_reversed_top(i % 2, reversed(i / 2, b), b);
    }
}

/// No two places are sent to one: the reordering is a permutation.
pub proof fn the_reordering_is_a_permutation(i: int, j: int, bits: nat)
    requires
        0 <= i < pow2(bits),
        0 <= j < pow2(bits),
        reversed(i, bits) == reversed(j, bits),
    ensures
        i == j,
{
    reversing_twice_gives_the_number_back(i, bits);
    reversing_twice_gives_the_number_back(j, bits);
}

/// The plan of a transform: its length and the reordering of its input.
pub struct Fft {
    n: usize,
    bits: u32,
    rev: Vec<u32>,
}

/// Which places meet: the lower, the upper, and the number of the factor that
/// the upper is multiplied by.
#[derive(Clone, Copy, PartialEq, Eq, Structural, Debug)]
pub struct Butterfly {
    pub low: usize,
    pub high: usize,
    pub twiddle: usize,
}

/// Meeting number `t` of the step that joins runs of `half` places.
pub open spec fn meeting(n: int, half: int, t: int) -> (int, int, int) {
    let low = (t / half) * (2 * half) + t % half;
    (low, low + half, (t % half) * (n / (2 * half)))
}

fn reverse_bits(i: usize, bits: u32) -> (r: u32)
    requires
        bits <= 32,
    ensures
        r == reversed(i as int, bits as nat),
{
    let mut x: usize = i;
    let mut r: u64 = 0;
    let mut left: u32 = bits;
    proof {
        lemma_pow2(0);
        vstd::arithmetic::power2::lemma2_to64();
        assert(0 * pow2(bits as nat) == 0) by (nonlinear_arith);
    }
    while left > 0
        invariant
            left <= bits <= 32,
            r < pow2((bits - left) as nat),
            pow2(32) == 0x1_0000_0000,
            r * pow2(left as nat) + reversed(x as int, left as nat) == reversed(
                i as int,
                bits as nat,
            ),
        decreases left,
    {
        proof {
            let done = (bits - left) as nat;
            lemma_pow2_unfold(done + 1);
            lemma_pow2_unfold(left as nat);
            if done + 1 < 32 {
                vstd::arithmetic::power2::lemma_pow2_strictly_increases(done + 1, 32);
            }
            let q = pow2((left - 1) as nat) as int;
            let bit = (x % 2) as int;
            assert(r * (2 * q) + bit * q == (2 * r + bit) * q) by (nonlinear_arith);
            assert(reversed(x as int, left as nat) == bit * q + reversed(
                x as int / 2,
                (left - 1) as nat,
            ));
            assert(r * pow2(left as nat) == r * (2 * q));
        }
        r = 2 * r + (x % 2) as u64;
        x = x / 2;
        left = left - 1;
    }
    proof {
        lemma_reversed_bounds(i as int, bits as nat);
        if bits < 32 {
            vstd::arithmetic::power2::lemma_pow2_strictly_increases(bits as nat, 32);
        }
        assert(r * pow2(0) == r) by (nonlinear_arith)
            requires
                pow2(0) == 1,
        ;
        assert(reversed(x as int, 0) == 0);
    }
    r as u32
}

impl Fft {
    /// What holds of every plan.
    pub closed spec fn wf(&self) -> bool {
        &&& 1 <= self.bits <= 32
        &&& self.n == pow2(self.bits as nat)
        &&& self.rev@.len() == self.n
        &&& forall|i: int|
            0 <= i < self.n ==> #[trigger] self.rev@[i] == reversed(i, self.bits as nat)
    }

    /// The length of the transform.
    pub closed spec fn length(&self) -> int {
        self.n as int
    }

    /// The number of steps, which is the number of bits of a place.
    pub closed spec fn steps(&self) -> nat {
        self.bits as nat
    }

    /// Plans a transform of `2^bits` places.
    pub fn new(bits: u32) -> (f: Fft)
        requires
            1 <= bits < 32,
            pow2(bits as nat) <= usize::MAX,
        ensures
            f.wf(),
            f.steps() == bits,
            f.length() == pow2(bits as nat),
    {
        let mut n: usize = 1;
        let mut k: u32 = 0;
        proof {
            lemma_pow2(0);
            vstd::arithmetic::power2::lemma2_to64();
        }
        while k < bits
            invariant
                k <= bits < 32,
                n == pow2(k as nat),
                pow2(bits as nat) <= usize::MAX,
            decreases bits - k,
        {
            proof {
                lemma_pow2_unfold((k + 1) as nat);
                if k + 1 < bits {
                    vstd::arithmetic::power2::lemma_pow2_strictly_increases(
                        (k + 1) as nat,
                        bits as nat,
                    );
                }
            }
            n = n * 2;
            k = k + 1;
        }
        let mut rev: Vec<u32> = Vec::with_capacity(n);
        let mut i: usize = 0;
        while i < n
            invariant
                i <= n,
                bits < 32,
                rev@.len() == i,
                forall|j: int| 0 <= j < i ==> #[trigger] rev@[j] == reversed(j, bits as nat),
            decreases n - i,
        {
            rev.push(reverse_bits(i, bits));
            i = i + 1;
        }
        Fft { n, bits, rev }
    }

    /// The length of the transform.
    pub fn len(&self) -> (n: usize)
        ensures
            n == self.length(),
    {
        self.n
    }

    /// A transform is never empty.
    pub fn is_empty(&self) -> (r: bool)
        requires
            self.wf(),
        ensures
            !r,
            r == (self.length() == 0),
    {
        proof {
            lemma_pow2_pos(self.bits as nat);
        }
        false
    }

    /// The place that changes places with `i` before the first step, where it
    /// lies behind it: each pair is swapped once.
    pub fn swap_with(&self, i: usize) -> (r: Option<usize>)
        requires
            self.wf(),
            i < self.length(),
        ensures
            r == (if i < reversed(i as int, self.steps()) {
                Some(reversed(i as int, self.steps()) as usize)
            } else {
                None
            }),
            r matches Some(j) ==> j < self.length(),
    {
        proof {
            lemma_reversed_bounds(i as int, self.bits as nat);
        }
        let j: usize = self.rev[i] as usize;
        if i < j {
            Some(j)
        } else {
            None
        }
    }

    /// Meeting number `t` of the step that joins runs of `half` places.
    pub fn butterfly(&self, half: usize, t: usize) -> (b: Butterfly)
        requires
            self.wf(),
            1 <= half,
            2 * half <= self.length(),
            self.length() % (2 * half as int) == 0,
            t < self.length() / 2,
        ensures
            (b.low as int, b.high as int, b.twiddle as int) == meeting(
                self.length(),
                half as int,
                t as int,
            ),
            b.high < self.length(),
            b.twiddle < self.length() / 2,
    {
        let ghost n = self.n as int;
        let ghost h = half as int;
        proof {
            lemma_meeting_bounds(n, h, t as int);
        }
        let block: usize = t / half;
        let k: usize = t % half;
        let low: usize = block * (2 * half) + k;
        Butterfly { low, high: low + half, twiddle: k * (self.n / (2 * half)) }
    }

    /// The place that mirrors `k`: the two hold conjugate values for real
    /// input.
    pub fn mirror(&self, k: usize) -> (m: usize)
        requires
            self.wf(),
            k < self.length(),
        ensures
            m == (self.length() - k) % self.length(),
            m < self.length(),
    {
        (self.n - k) % self.n
    }
}

proof fn lemma_meeting_bounds(n: int, half: int, t: int)
    requires
        1 <= half,
        2 * half <= n,
        n % (2 * half) == 0,
        0 <= t < n / 2,
    ensures
        0 <= (t / half) * (2 * half),
        0 <= meeting(n, half, t).0,
        meeting(n, half, t).1 < n,
        0 <= (t % half) * (n / (2 * half)) < n / 2,
{
    let len = 2 * half;
    let q = n / len;
    let b = t / half;
    let k = t % half;
    vstd::arithmetic::div_mod::lemma_fundamental_div_mod(n, len);
    vstd::arithmetic::div_mod::lemma_fundamental_div_mod(t, half);
    assert(n == len * q);
    assert(n / 2 == half * q) by {
        assert(len * q == 2 * (half * q)) by (nonlinear_arith)
            requires
                len == 2 * half,
        ;
    }
    assert(0 <= b <= q - 1) by (nonlinear_arith)
        requires
            t == half * b + k,
            0 <= k < half,
            0 <= t < half * q,
            half >= 1,
    ;
    assert(0 <= b * len && b * len + len <= n) by (nonlinear_arith)
        requires
            0 <= b <= q - 1,
            n == len * q,
            len >= 2,
    ;
    assert(0 <= k * q && k * q < half * q) by (nonlinear_arith)
        requires
            0 <= k < half,
            q >= 1,
    ;
}

/// In every step each place takes part once: two different meetings share no
/// place, and the two places of one meeting differ.
pub proof fn every_place_meets_once_in_a_step(n: int, half: int, t: int, u: int)
    requires
        1 <= half,
        2 * half <= n,
        n % (2 * half) == 0,
        0 <= t < n / 2,
        0 <= u < n / 2,
        t != u,
    ensures
        meeting(n, half, t).0 != meeting(n, half, t).1,
        meeting(n, half, t).0 != meeting(n, half, u).0,
        meeting(n, half, t).0 != meeting(n, half, u).1,
        meeting(n, half, t).1 != meeting(n, half, u).0,
        meeting(n, half, t).1 != meeting(n, half, u).1,
{
    let len = 2 * half;
    let (b, k) = (t / half, t % half);
    let (c, m) = (u / half, u % half);
    vstd::arithmetic::div_mod::lemma_fundamental_div_mod(t, half);
    vstd::arithmetic::div_mod::lemma_fundamental_div_mod(u, half);
    assert(b != c || k != m);
    assert(b == c || b * len + len <= c * len || c * len + len <= b * len) by (nonlinear_arith)
        requires
            len >= 2,
    ;
}

/// The bits of a place come back in the opposite order: each stands as far from one end as
/// it stood from the other.
pub proof fn bits_change_their_ends(i: int, bits: nat, k: nat)
    requires
        0 <= i,
        k < bits,
    ensures
        (reversed(i, bits) / (pow2(k) as int)) % 2 == (i / (pow2((bits - 1 - k) as nat) as int)) % 2,
    decreases bits,
{
    let b = (bits - 1) as nat;
    let r = reversed(i / 2, b);
    let d = i % 2;
    let p = pow2(b) as int;
    let q = pow2(k) as int;
    lemma_reversed_bounds(i / 2, b);
    lemma_pow2_pos(k);
    lemma_pow2_pos(b);
    lemma_pow2(0);
    vstd::arithmetic::power2::lemma2_to64();
    assert(reversed(i, bits) == d * p + r);
    if k == b {
        assert((d * p + r) / p == d) by {
            vstd::arithmetic::div_mod::lemma_fundamental_div_mod_converse(d * p + r, p, d, r);
        }
        assert(i / 1 == i);
    } else {
        let up = (b - k) as nat;
        let down = (b - 1 - k) as nat;
        vstd::arithmetic::power2::lemma_pow2_adds(k, up);
        lemma_pow2_unfold(up);
        lemma_pow2_pos(down);
        let u = pow2(up) as int;
        let h = pow2(down) as int;
        assert(u == 2 * h);
        assert(d * p == q * (d * u)) by (nonlinear_arith)
            requires
                p == q * u,
        ;
        vstd::arithmetic::div_mod::lemma_hoist_over_denominator(r, d * u, q as nat);
        assert((d * p + r) / q == r / q + d * u);
        assert(d * u == 2 * (d * h)) by (nonlinear_arith)
            requires
                u == 2 * h,
        ;
        assert(((d * p + r) / q) % 2 == (r / q) % 2);
        bits_change_their_ends(i / 2, b, k);
        vstd::arithmetic::div_mod::lemma_div_denominator(i, 2, h);
        assert((i / 2) / h == i / u);
    }
}

/// The two places that meet lie half a run apart in one run, and the upper one is turned by
/// the part of a full turn at which the lower one stands in its run.
pub proof fn places_that_meet_lie_half_a_run_apart(n: int, half: int, t: int)
    requires
        1 <= half,
        n % (2 * half) == 0,
        0 <= t,
        n >= 0,
    ensures
        ({
            let m = meeting(n, half, t);
            &&& m.1 - m.0 == half
            &&& m.0 % (2 * half) < half
            &&& m.0 / (2 * half) == m.1 / (2 * half)
            &&& m.2 * (2 * half) == (m.0 % (2 * half)) * n
        }),
{
    let len = 2 * half;
    let b = t / half;
    let k = t % half;
    let q = n / len;
    let low = b * len + k;
    vstd::arithmetic::div_mod::lemma_fundamental_div_mod(n, len);
    vstd::arithmetic::div_mod::lemma_fundamental_div_mod_converse(low, len, b, k);
    vstd::arithmetic::div_mod::lemma_fundamental_div_mod_converse(low + half, len, b, k + half);
    assert((k * q) * len == k * n) by (nonlinear_arith)
        requires
            n == len * q,
    ;
}

} // verus!
