//! Single-precision numbers carried by their bit patterns.
//!
//! The library moves samples around and compares them, and never computes with
//! them. A bit pattern is enough for that: the order of two numbers can be read
//! off their bits, and this module proves that the reading is right, against
//! the value that the IEEE 754 binary32 format gives to a pattern.
use vstd::arithmetic::power2::{lemma_pow2_pos, lemma_pow2_strictly_increases, lemma_pow2_unfold, pow2};
use vstd::prelude::*;

verus! {

/// The bit pattern of a single-precision number.
pub type Bits = u32;

/// Positive zero.
pub const ZERO: Bits = 0;

/// One.
pub const ONE: Bits = 0x3F80_0000;

/// Positive infinity.
pub const INFINITY: Bits = 0x7F80_0000;

/// The pattern without its sign bit.
pub open spec fn low(b: Bits) -> int {
    if b < 0x8000_0000 {
        b as int
    } else {
        b - 0x8000_0000
    }
}

/// Is this pattern one of the "not a number" patterns?
pub open spec fn nan(b: Bits) -> bool {
    low(b) > 0x7F80_0000
}

/// The absolute value that a sign-free pattern stands for, in units of 2^-149,
/// the smallest positive single. Infinity comes out as the power of two that
/// would follow the largest finite number, so that it lies above all of them.
pub open spec fn magnitude(m: int) -> int {
    let exponent = m / 0x80_0000;
    let fraction = m % 0x80_0000;
    if exponent == 0 {
        fraction
    } else {
        (0x80_0000 + fraction) * pow2((exponent - 1) as nat)
    }
}

/// The number that a pattern stands for, in units of 2^-149.
pub open spec fn value(b: Bits) -> int {
    if b < 0x8000_0000 {
        magnitude(b as int)
    } else {
        -magnitude(b - 0x8000_0000)
    }
}

/// `a < b` as numbers. False where either is not a number.
pub open spec fn less(a: Bits, b: Bits) -> bool {
    !nan(a) && !nan(b) && value(a) < value(b)
}

/// `a <= b` as numbers. False where either is not a number.
pub open spec fn at_most(a: Bits, b: Bits) -> bool {
    !nan(a) && !nan(b) && value(a) <= value(b)
}

/// The sign-carrying integer by which patterns are compared.
spec fn order_key(b: Bits) -> int {
    if b < 0x8000_0000 {
        b as int
    } else {
        -(b - 0x8000_0000)
    }
}

proof fn lemma_magnitude_bounds(m: int)
    requires
        0 <= m,
    ensures
        m / 0x80_0000 == 0 ==> 0 <= magnitude(m) < 0x80_0000,
        m / 0x80_0000 > 0 ==> 0x80_0000 * pow2((m / 0x80_0000 - 1) as nat) <= magnitude(m)
            < 0x80_0000 * pow2((m / 0x80_0000) as nat),
{
    let e = m / 0x80_0000;
    let f = m % 0x80_0000;
    if e > 0 {
        let p = pow2((e - 1) as nat) as int;
        lemma_pow2_pos((e - 1) as nat);
        lemma_pow2_unfold(e as nat);
        assert(0x80_0000 * p <= (0x80_0000 + f) * p && (0x80_0000 + f) * p < 0x80_0000 * (2 * p))
            by (nonlinear_arith)
            requires
                p > 0,
                0 <= f < 0x80_0000,
        ;
    }
}

/// Sign-free patterns order as their absolute values do.
proof fn lemma_magnitude_increases(m: int, n: int)
    requires
        0 <= m < n,
    ensures
        0 <= magnitude(m) < magnitude(n),
{
    let em = m / 0x80_0000;
    let en = n / 0x80_0000;
    let fm = m % 0x80_0000;
    let fn_ = n % 0x80_0000;
    lemma_magnitude_bounds(m);
    lemma_magnitude_bounds(n);
    if em == en {
        if em > 0 {
            let p = pow2((em - 1) as nat) as int;
            lemma_pow2_pos((em - 1) as nat);
            assert(0 <= (0x80_0000 + fm) * p && (0x80_0000 + fm) * p < (0x80_0000 + fn_) * p)
                by (nonlinear_arith)
                requires
                    p > 0,
                    0 <= fm < fn_,
            ;
        }
    } else {
        assert(em < en);
        let q = pow2((en - 1) as nat) as int;
        lemma_pow2_pos((en - 1) as nat);
        assert(0x80_0000 * q >= 0x80_0000) by (nonlinear_arith)
            requires
                q > 0,
        ;
        if em > 0 {
            let p = pow2(em as nat) as int;
            if em < en - 1 {
                lemma_pow2_strictly_increases(em as nat, (en - 1) as nat);
            }
            assert(0x80_0000 * p <= 0x80_0000 * q) by (nonlinear_arith)
                requires
                    p <= q,
            ;
            lemma_pow2_pos((em - 1) as nat);
            assert(0x80_0000 * pow2((em - 1) as nat) >= 0) by (nonlinear_arith)
                requires
                    pow2((em - 1) as nat) > 0,
            ;
        }
    }
}

/// Comparing the keys is comparing the numbers.
proof fn lemma_key_order(a: Bits, b: Bits)
    ensures
        (order_key(a) < order_key(b)) == (value(a) < value(b)),
        (order_key(a) == order_key(b)) == (value(a) == value(b)),
{
    assert(magnitude(0) == 0);
    let ma = low(a);
    let mb = low(b);
    if ma < mb {
        lemma_magnitude_increases(ma, mb);
    }
    if mb < ma {
        lemma_magnitude_increases(mb, ma);
    }
    if ma > 0 {
        lemma_magnitude_increases(0, ma);
    }
    if mb > 0 {
        lemma_magnitude_increases(0, mb);
    }
}

fn key(b: Bits) -> (k: i64)
    ensures
        k == order_key(b),
{
    if b < 0x8000_0000 {
        b as i64
    } else {
        -((b - 0x8000_0000) as i64)
    }
}

/// Is this pattern not a number?
pub fn is_nan(b: Bits) -> (r: bool)
    ensures
        r == nan(b),
{
    if b < 0x8000_0000 {
        b > 0x7F80_0000
    } else {
        b - 0x8000_0000 > 0x7F80_0000
    }
}

/// Is this pattern neither infinite nor a NaN?
pub fn is_finite(b: Bits) -> (r: bool)
    ensures
        r == (low(b) < 0x7F80_0000),
{
    if b < 0x8000_0000 {
        b < 0x7F80_0000
    } else {
        b - 0x8000_0000 < 0x7F80_0000
    }
}

/// `a < b`.
pub fn lt(a: Bits, b: Bits) -> (r: bool)
    ensures
        r == less(a, b),
{
    proof {
        lemma_key_order(a, b);
    }
    !is_nan(a) && !is_nan(b) && key(a) < key(b)
}

/// `a <= b`.
pub fn le(a: Bits, b: Bits) -> (r: bool)
    ensures
        r == at_most(a, b),
{
    proof {
        lemma_key_order(a, b);
    }
    !is_nan(a) && !is_nan(b) && key(a) <= key(b)
}

/// The absolute value: the sign bit is cleared.
pub fn abs(b: Bits) -> (r: Bits)
    ensures
        r == low(b),
        nan(r) == nan(b),
        value(r) == (if value(b) < 0 { -value(b) } else { value(b) }),
{
    proof {
        assert(magnitude(0) == 0);
        if low(b) > 0 {
            lemma_magnitude_increases(0, low(b));
        }
    }
    if b < 0x8000_0000 {
        b
    } else {
        b - 0x8000_0000
    }
}

/// The larger of two numbers; where one is not a number, the other.
pub open spec fn larger(a: Bits, b: Bits) -> Bits {
    if nan(a) {
        b
    } else if nan(b) {
        a
    } else if value(a) < value(b) {
        b
    } else {
        a
    }
}

/// The smaller of two numbers; where one is not a number, the other.
pub open spec fn smaller(a: Bits, b: Bits) -> Bits {
    if nan(a) {
        b
    } else if nan(b) {
        a
    } else if value(b) < value(a) {
        b
    } else {
        a
    }
}

/// The larger of two numbers. Of two zeros of different sign it gives the first.
pub fn max(a: Bits, b: Bits) -> (r: Bits)
    ensures
        r == larger(a, b),
{
    if is_nan(a) {
        b
    } else if is_nan(b) {
        a
    } else if lt(a, b) {
        b
    } else {
        a
    }
}

/// The smaller of two numbers. Of two zeros of different sign it gives the first.
pub fn min(a: Bits, b: Bits) -> (r: Bits)
    ensures
        r == smaller(a, b),
{
    if is_nan(a) {
        b
    } else if is_nan(b) {
        a
    } else if lt(b, a) {
        b
    } else {
        a
    }
}

/// `x` held between `lo` and `hi`; a NaN stays as it is.
pub open spec fn clamped(x: Bits, lo: Bits, hi: Bits) -> Bits {
    if less(x, lo) {
        lo
    } else if less(hi, x) {
        hi
    } else {
        x
    }
}

/// `x` held between `lo` and `hi`; a NaN stays as it is.
pub fn clamp(x: Bits, lo: Bits, hi: Bits) -> (r: Bits)
    ensures
        r == clamped(x, lo, hi),
{
    if lt(x, lo) {
        lo
    } else if lt(hi, x) {
        hi
    } else {
        x
    }
}

/// A place in the order of all patterns: that of their numbers, with the
/// negative zero before the positive one and what is not a number at the ends.
pub open spec fn place(b: Bits) -> int {
    if b < 0x8000_0000 {
        b + 0x8000_0000
    } else {
        0xFFFF_FFFF - b
    }
}

/// The place of a pattern.
pub fn to_place(b: Bits) -> (p: u64)
    ensures
        p == place(b),
        p <= u32::MAX,
{
    if b < 0x8000_0000 {
        b as u64 + 0x8000_0000
    } else {
        (0xFFFF_FFFF - b) as u64
    }
}

/// The pattern at a place.
pub fn from_place(p: u64) -> (b: Bits)
    requires
        p <= u32::MAX,
    ensures
        place(b) == p,
{
    if p < 0x8000_0000 {
        0xFFFF_FFFF - p as u32
    } else {
        (p - 0x8000_0000) as u32
    }
}

/// A smaller number has the earlier place.
pub proof fn places_follow_the_numbers(a: Bits, b: Bits)
    requires
        value(a) < value(b),
    ensures
        place(a) < place(b),
{
    lemma_key_order(a, b);
}

/// No two patterns share a place.
pub proof fn places_differ(a: Bits, b: Bits)
    requires
        place(a) == place(b),
    ensures
        a == b,
{
}

/// Patterns of non-negative numbers order as the integers that they are.
pub proof fn non_negative_patterns_order_as_integers(a: Bits, b: Bits)
    requires
        a < 0x8000_0000,
        b < 0x8000_0000,
    ensures
        value(a) < value(b) <==> a < b,
        value(a) <= value(b) <==> a <= b,
{
    lemma_key_order(a, b);
}

/// Two patterns of equal value are the same pattern, zeros apart.
pub proof fn equal_values_share_bits(a: Bits, b: Bits)
    requires
        value(a) == value(b),
        value(a) != 0,
    ensures
        a == b,
{
    lemma_key_order(a, b);
    assert(magnitude(0) == 0);
}

/// The pattern of zero stands for nothing.
pub proof fn zero_is_zero()
    ensures
        value(ZERO) == 0,
        !nan(ZERO),
{
    assert(magnitude(0) == 0);
}

/// The pattern of one stands for 2^149 units.
pub proof fn one_is_one()
    ensures
        value(ONE) == pow2(149),
{
    assert(0x3F80_0000int / 0x80_0000 == 127);
    assert(0x3F80_0000int % 0x80_0000 == 0);
    vstd::arithmetic::power2::lemma_pow2_adds(23, 126);
    vstd::arithmetic::power2::lemma2_to64();
    assert(pow2(23) == 0x80_0000);
}

/// The numbers lie as their patterns say: zero has the value zero under either sign, a
/// pattern with the sign bit stands for the negative of the one without, and patterns
/// without it rise with their values, strictly.
pub proof fn signs_mirror_the_numbers(b: Bits, c: Bits)
    requires
        b < c < 0x8000_0000,
    ensures
        value(0) == 0,
        value(0x8000_0000) == 0,
        0 <= value(b) < value(c),
        value((b + 0x8000_0000) as Bits) == -value(b),
        nan((b + 0x8000_0000) as Bits) == nan(b),
        nan(b) <==> b > 0x7F80_0000,
{
    assert(magnitude(0) == 0);
    lemma_magnitude_increases(b as int, c as int);
}

/// Doubling the exponent's step doubles the number: two patterns one exponent apart,
/// with the same fraction, stand for a number and its double.
pub proof fn one_exponent_more_is_twice_the_number(b: Bits)
    requires
        0x80_0000 <= b < 0x7F80_0000,
    ensures
        value((b + 0x80_0000) as Bits) == 2 * value(b),
{
    let e = b as int / 0x80_0000;
    let f = b as int % 0x80_0000;
    let c = b + 0x80_0000;
    assert(c / 0x80_0000 == e + 1 && c % 0x80_0000 == f);
    lemma_pow2_unfold(e as nat);
    let p = pow2((e - 1) as nat) as int;
    assert((0x80_0000 + f) * (2 * p) == 2 * ((0x80_0000 + f) * p)) by (nonlinear_arith);
}

/// A clamped number lies between the bounds, is the number itself where that lies
/// between them, and is the nearer bound elsewhere. What is not a number stays.
pub proof fn clamping_goes_to_the_nearer_bound(x: Bits, lo: Bits, hi: Bits)
    requires
        !nan(lo),
        !nan(hi),
        value(lo) <= value(hi),
    ensures
        nan(x) ==> clamped(x, lo, hi) == x,
        !nan(x) ==> value(lo) <= value(clamped(x, lo, hi)) <= value(hi),
        !nan(x) && value(lo) <= value(x) <= value(hi) ==> clamped(x, lo, hi) == x,
        !nan(x) && value(x) < value(lo) ==> clamped(x, lo, hi) == lo,
        !nan(x) && value(hi) < value(x) ==> clamped(x, lo, hi) == hi,
{
}

/// The larger and the smaller of two numbers are these two numbers, and lie on the right
/// sides of both; one that is not a number gives way to the other.
pub proof fn the_larger_and_the_smaller_are_the_two(a: Bits, b: Bits)
    ensures
        larger(a, b) == a || larger(a, b) == b,
        smaller(a, b) == a || smaller(a, b) == b,
        !nan(a) && !nan(b) ==> value(smaller(a, b)) <= value(a) <= value(larger(a, b)) && value(
            smaller(a, b),
        ) <= value(b) <= value(larger(a, b)),
        nan(a) ==> larger(a, b) == b && smaller(a, b) == b,
        nan(b) && !nan(a) ==> larger(a, b) == a && smaller(a, b) == a,
        !nan(a) && !nan(b) && value(a) == value(b) ==> larger(a, b) == a && smaller(a, b) == a,
{
}

/// Without its sign a pattern stands for the size of its number, and "not a number" stays
/// that.
pub proof fn the_size_of_a_number(b: Bits)
    ensures
        nan(low(b) as Bits) == nan(b),
        value(low(b) as Bits) == vstd::math::abs(value(b)),
{
    assert(magnitude(0) == 0);
    if low(b) > 0 {
        lemma_magnitude_increases(0, low(b));
    }
}

} // verus!
