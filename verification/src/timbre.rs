//! Fingerprints of a voice, and how far one voice has to be shifted to come near
//! another.
//!
//! A fingerprint is the spectral envelope on a logarithmic frequency axis, so
//! that scaling the formants is a shift along it.
use crate::single::{self, Bits};
use crate::sorting;
use vstd::arithmetic::power::pow;
use vstd::prelude::*;

verus! {

/// Places of the axis per octave: two per semitone.
pub const BINS_PER_OCT: usize = 24;

/// Samples of one analysis frame.
pub const FRAME: usize = 2048;

/// Samples from one analysis frame to the next.
pub const FRAME_HOP: usize = 1024;

/// Cepstral coefficients that are kept at either end. They hold the envelope;
/// what lies between holds the harmonics of the note.
pub const CEPSTRUM_KEEP: usize = 64;

/// 1.5 seconds of voice: less is not enough to say anything.
pub const MIN_VOICED_SECS: Bits = 0x3FC0_0000;

/// Places that a voice is shifted at most either way: eight semitones.
pub const MAX_SHIFT_BINS: i32 = 16;

/// The fingerprint of a voice.
pub struct TimbreProfile {
    /// Median pitch in Hz, zero where none was found.
    pub median_f0: Bits,
    /// The pitches below which a tenth and nine tenths of the frames lie.
    pub f0_low: Bits,
    pub f0_high: Bits,
    pub voiced_secs: Bits,
    pub duration_secs: Bits,
    /// The envelope in dB by place of the axis, its mean taken off.
    pub envelope: Vec<Bits>,
    /// Slope of the spectrum in dB per octave.
    pub tilt_db_per_oct: Bits,
}

/// How to come from one voice to another.
#[derive(Clone, Copy, PartialEq, Eq, Structural, Debug)]
pub struct TimbreMatch {
    /// Shift of the formants, in semitones.
    pub formant_shift: Bits,
    /// Transposition. Always zero: a voice an octave higher is no reason to sing
    /// another song.
    pub pitch_shift: Bits,
    /// The pitch that was measured between them, in semitones.
    pub pitch_delta: Bits,
    /// From zero to one; zero where either voice is not usable.
    pub confidence: Bits,
    /// Difference of the slopes, in dB per octave.
    pub tilt_delta: Bits,
}

impl TimbreProfile {
    /// Is there enough voice, with a pitch?
    pub open spec fn usable(&self) -> bool {
        single::at_most(MIN_VOICED_SECS, self.voiced_secs) && single::less(
            single::ZERO,
            self.median_f0,
        )
    }

    /// Is there enough voice to rely on the fingerprint?
    pub fn is_usable(&self) -> (r: bool)
        ensures
            r == self.usable(),
    {
        single::le(MIN_VOICED_SECS, self.voiced_secs) && single::lt(single::ZERO, self.median_f0)
    }
}

/// The number of places on the axis from 200 Hz to 6000 Hz, both among them: 24
/// times the octaves between them, rounded, and one. The ratio is thirty, so
/// place `g` lies within half a place of 6000 Hz when 48 times the octaves lie
/// between `2 g - 1` and `2 g + 1`.
pub fn grid_len() -> (n: usize)
    ensures
        pow(2, (2 * (n - 1) - 1) as nat) < pow(30, 48) < pow(2, (2 * (n - 1) + 1) as nat),
{
    proof {
        lemma_thirty();
    }
    119
}

/// `30^48` lies between `2^235` and `2^237`.
proof fn lemma_thirty()
    ensures
        pow(2, 235) < pow(30, 48) < pow(2, 237),
{
    let a: int = 30;
    vstd::arithmetic::power::lemma_pow1(a);
    lemma_square(a, 1, 30);
    lemma_square(a, 2, 900);
    lemma_square(a, 4, 810000);
    lemma_square(a, 8, 656100000000);
    lemma_square(a, 16, 430467210000000000000000int);
    lemma_product(
        a,
        32,
        185302018885184100000000000000000000000000000000int,
        16,
        430467210000000000000000int,
    );
    let b: int = 2;
    vstd::arithmetic::power::lemma_pow1(b);
    lemma_square(b, 1, 2);
    lemma_square(b, 2, 4);
    lemma_square(b, 4, 16);
    lemma_square(b, 8, 256);
    lemma_square(b, 16, 65536);
    lemma_square(b, 32, 4294967296);
    lemma_square(b, 64, 18446744073709551616int);
    let b128 = 340282366920938463463374607431768211456int;
    lemma_product(b, 128, b128, 64, 18446744073709551616int);
    lemma_product(b, 192, b128 * 18446744073709551616int, 32, 4294967296);
    let b224 = b128 * 18446744073709551616int * 4294967296;
    lemma_product(b, 224, b224, 8, 256);
    lemma_product(b, 232, b224 * 256, 2, 4);
    lemma_product(b, 234, b224 * 256 * 4, 1, 2);
    lemma_product(b, 235, b224 * 256 * 4 * 2, 2, 4);
}

proof fn lemma_square(a: int, n: nat, v: int)
    requires
        pow(a, n) == v,
    ensures
        pow(a, 2 * n) == v * v,
{
    vstd::arithmetic::power::lemma_pow_adds(a, n, n);
}

proof fn lemma_product(a: int, m: nat, v: int, n: nat, w: int)
    requires
        pow(a, m) == v,
        pow(a, n) == w,
    ensures
        pow(a, m + n) == v * w,
{
    vstd::arithmetic::power::lemma_pow_adds(a, m, n);
}

/// Where the analysis frame after `pos` begins, as long as a whole frame lies
/// there.
pub fn frame_at(k: usize, samples: usize) -> (r: Option<usize>)
    requires
        k * FRAME_HOP + FRAME <= usize::MAX,
    ensures
        r == (if k * FRAME_HOP + FRAME <= samples {
            Some((k * FRAME_HOP) as usize)
        } else {
            None
        }),
{
    let pos: usize = k * FRAME_HOP;
    if pos + FRAME <= samples {
        Some(pos)
    } else {
        None
    }
}

/// Is cepstral coefficient `q` kept? Both ends are, since the cepstrum is
/// symmetric.
pub fn is_kept(q: usize) -> (r: bool)
    ensures
        r == (q < CEPSTRUM_KEEP || q >= FRAME - CEPSTRUM_KEEP),
{
    q < CEPSTRUM_KEEP || q >= FRAME - CEPSTRUM_KEEP
}

/// The two ends that are kept mirror each other, but for the first coefficient,
/// which is its own mirror.
pub proof fn what_is_kept_is_symmetric(q: int)
    requires
        0 < q < FRAME,
        q != CEPSTRUM_KEEP,
        q != FRAME - CEPSTRUM_KEEP,
    ensures
        (q < CEPSTRUM_KEEP || q >= FRAME - CEPSTRUM_KEEP) == (FRAME - q < CEPSTRUM_KEEP || FRAME - q
            >= FRAME - CEPSTRUM_KEEP),
{
}

/// The places at which an envelope of `n` places meets itself shifted by `s`:
/// from `from` on, `count` of them.
#[derive(Clone, Copy, PartialEq, Eq, Structural, Debug)]
pub struct Overlap {
    pub from: usize,
    pub count: usize,
    /// Do they overlap enough for the shift to mean something?
    pub enough: bool,
}

/// Place `i` meets place `i - s`.
pub open spec fn meets(n: int, s: int, i: int) -> bool {
    0 <= i < n && 0 <= i - s < n
}

/// Where an envelope meets itself shifted by `s`.
pub fn overlap(n: usize, s: i32) -> (o: Overlap)
    requires
        n <= 0x7FFF_FFFF,
        -0x7FFF_FFFF <= s,
    ensures
        forall|i: int| #[trigger] meets(n as int, s as int, i) <==> o.from <= i < o.from + o.count,
        o.from + o.count <= n,
        o.enough == (o.count >= n / 2),
{
    let size: usize = if s < 0 {
        (-s) as usize
    } else {
        s as usize
    };
    let count: usize = if size < n {
        n - size
    } else {
        0
    };
    let from: usize = if s < 0 || count == 0 {
        0
    } else {
        size
    };
    Overlap { from, count, enough: count >= n / 2 }
}

/// `i` is the place to shift to: the middle, which is no shift, where that leaves
/// no error at all; else the place of the smallest error, the first of several;
/// and the middle again where no error is below infinity.
pub open spec fn best_at(errs: Seq<Bits>, i: int) -> bool {
    if is_zero(errs[MAX_SHIFT_BINS as int]) {
        i == MAX_SHIFT_BINS
    } else if forall|j: int|
        0 <= j < errs.len() ==> !single::less(#[trigger] errs[j], single::INFINITY) {
        i == MAX_SHIFT_BINS
    } else {
        &&& 0 <= i < errs.len()
        &&& single::less(errs[i], single::INFINITY)
        &&& forall|j: int| 0 <= j < errs.len() ==> !single::less(#[trigger] errs[j], errs[i])
        &&& forall|j: int|
            0 <= j < i && single::less(#[trigger] errs[j], single::INFINITY) ==> single::less(
                errs[i],
                errs[j],
            )
    }
}

/// Does this pattern stand for zero?
pub open spec fn is_zero(b: Bits) -> bool {
    !single::nan(b) && single::value(b) == 0
}

/// The finite ones among the errors.
pub open spec fn finite_errors(errs: Seq<Bits>) -> Seq<Bits>
    decreases errs.len(),
{
    if errs.len() == 0 {
        Seq::empty()
    } else if single::low(errs.last()) < 0x7F80_0000 {
        finite_errors(errs.drop_last()).push(errs.last())
    } else {
        finite_errors(errs.drop_last())
    }
}

/// The errors on both sides of place `i`, where both are there and finite.
pub open spec fn sides_of(errs: Seq<Bits>, i: int) -> Option<(Bits, Bits)> {
    if 0 < i < 32 && single::low(errs[i - 1]) < 0x7F80_0000 && single::low(errs[i + 1])
        < 0x7F80_0000 {
        Some((errs[i - 1], errs[i + 1]))
    } else {
        None
    }
}

/// What the errors of all shifts say.
#[derive(Clone, Copy, Debug)]
pub struct Best {
    /// The shift with the smallest error.
    pub shift: i32,
    /// That error.
    pub err: Bits,
    /// The median of the finite errors, one where there are none: what an
    /// ordinary shift costs.
    pub typical: Bits,
    /// The errors on both sides of the best, where a parabola can be laid
    /// through them.
    pub sides: Option<(Bits, Bits)>,
}

/// Looks for the best of the shifts from `-MAX_SHIFT_BINS` to `MAX_SHIFT_BINS`,
/// whose errors come in this order.
pub fn best_shift(errs: &Vec<Bits>) -> (b: Best)
    requires
        errs@.len() == 33,
    ensures
        best_at(errs@, b.shift + MAX_SHIFT_BINS),
        -MAX_SHIFT_BINS <= b.shift <= MAX_SHIFT_BINS,
        (exists|j: int|
            0 <= j < errs@.len() && single::less(#[trigger] errs@[j], single::INFINITY)) ==> b.err
            == errs@[b.shift + MAX_SHIFT_BINS],
        (forall|j: int|
            0 <= j < errs@.len() ==> !single::less(#[trigger] errs@[j], single::INFINITY))
            ==> b.err == single::INFINITY,
        finite_errors(errs@).len() == 0 ==> b.typical == single::ONE,
        finite_errors(errs@).len() > 0 ==> sorting::is_nth(
            finite_errors(errs@),
            finite_errors(errs@).len() as int / 2,
            b.typical,
        ),
        b.sides == sides_of(errs@, b.shift + MAX_SHIFT_BINS),
{
    let mut at: i32 = MAX_SHIFT_BINS;
    let mut err: Bits = single::INFINITY;
    let mut finite: Vec<Bits> = Vec::new();
    let mut k: usize = 0;
    assert(errs@.take(0) =~= Seq::<Bits>::empty());
    while k < 33
        invariant
            k <= 33,
            errs@.len() == 33,
            finite@ == finite_errors(errs@.take(k as int)),
            0 <= at <= 32,
            err == single::INFINITY ==> at == MAX_SHIFT_BINS && forall|j: int|
                0 <= j < k ==> !single::less(#[trigger] errs@[j], single::INFINITY),
            err != single::INFINITY ==> at < k && err == errs@[at as int] && single::less(
                err,
                single::INFINITY,
            ) && (forall|j: int| 0 <= j < k ==> !single::less(#[trigger] errs@[j], err)) && (
            forall|j: int|
                0 <= j < at && single::less(#[trigger] errs@[j], single::INFINITY) ==> single::less(
                    err,
                    errs@[j],
                )),
        decreases 33 - k,
    {
        assert(errs@.take(k + 1).drop_last() =~= errs@.take(k as int));
        let e: Bits = errs[k];
        if single::is_finite(e) {
            finite.push(e);
        }
        if single::lt(e, err) {
            at = k as i32;
            err = e;
        }
        k = k + 1;
    }
    assert(errs@.take(33) =~= errs@);
    let unshifted: Bits = errs[16];
    proof {
        single::zero_is_zero();
        single::non_negative_patterns_order_as_integers(single::ZERO, single::INFINITY);
    }
    if single::le(single::ZERO, unshifted) && single::le(unshifted, single::ZERO) {
        at = MAX_SHIFT_BINS;
        err = unshifted;
        assert(single::less(errs@[16], single::INFINITY));
    }
    let typical: Bits = if finite.len() == 0 {
        single::ONE
    } else {
        sorting::nth(&finite, finite.len() / 2)
    };
    let i: usize = at as usize;
    let sides: Option<(Bits, Bits)> = if i > 0 && i < 32 && single::is_finite(errs[i - 1])
        && single::is_finite(errs[i + 1]) {
        Some((errs[i - 1], errs[i + 1]))
    } else {
        None
    };
    proof {
        if err != single::INFINITY {
            assert(single::less(errs@[at as int], single::INFINITY));
        }
    }
    Best { shift: at - MAX_SHIFT_BINS, err, typical, sides }
}

/// A voice meets itself best without a shift: where the error of no shift is
/// zero and none is below it, no shift is what comes out, however many shifts do
/// as well. No error is then smaller than the one of the place that comes out.
pub proof fn a_voice_matches_itself(errs: Seq<Bits>, i: int)
    requires
        errs.len() == 33,
        is_zero(errs[16]),
        forall|j: int| 0 <= j < 33 ==> !single::less(#[trigger] errs[j], errs[16]),
        best_at(errs, i),
    ensures
        i == 16,
        forall|j: int| 0 <= j < 33 ==> !single::less(#[trigger] errs[j], errs[i]),
{
}

/// No shift leads out of the range of eight semitones either way. The best place may be
/// refined by up to one place either way, but only where it has a place on each side;
/// `offset` counts in parts of which `parts` make a place, and is zero elsewhere.
pub proof fn a_shift_stays_in_range(errs: Seq<Bits>, i: int, offset: int, parts: int)
    requires
        errs.len() == 33,
        best_at(errs, i),
        parts > 0,
        -parts <= offset <= parts,
        sides_of(errs, i) is None ==> offset == 0,
    ensures
        -MAX_SHIFT_BINS * parts <= (i - MAX_SHIFT_BINS) * parts + offset <= MAX_SHIFT_BINS * parts,
{
    let s = i - MAX_SHIFT_BINS;
    assert(-16 <= s <= 16);
    if sides_of(errs, i) is Some {
        assert(-15 <= s <= 15);
        assert(-15 * parts <= s * parts <= 15 * parts) by (nonlinear_arith)
            requires
                parts > 0,
                -15 <= s <= 15,
        ;
    } else {
        assert(-16 * parts <= s * parts <= 16 * parts) by (nonlinear_arith)
            requires
                parts > 0,
                -16 <= s <= 16,
        ;
    }
}

/// The match of two voices, from what was worked out of them.
pub open spec fn match_of(
    src: TimbreProfile,
    target: TimbreProfile,
    formant_shift: Bits,
    confidence: Bits,
    pitch_delta: Bits,
    tilt_delta: Bits,
) -> TimbreMatch {
    TimbreMatch {
        formant_shift,
        pitch_shift: single::ZERO,
        pitch_delta: if single::less(single::ZERO, src.median_f0) && single::less(
            single::ZERO,
            target.median_f0,
        ) {
            pitch_delta
        } else {
            single::ZERO
        },
        confidence: if src.usable() && target.usable() {
            single::clamped(confidence, single::ZERO, single::ONE)
        } else {
            single::ZERO
        },
        tilt_delta,
    }
}

/// A match never transposes, whatever pitch lies between the voices. Its confidence
/// lies between zero and one, and is zero where either voice is not usable.
pub proof fn a_match_never_transposes(
    src: TimbreProfile,
    target: TimbreProfile,
    formant_shift: Bits,
    confidence: Bits,
    pitch_delta: Bits,
    tilt_delta: Bits,
)
    ensures
        ({
            let m = match_of(src, target, formant_shift, confidence, pitch_delta, tilt_delta);
            &&& m.pitch_shift == single::ZERO
            &&& !src.usable() || !target.usable() ==> m.confidence == single::ZERO
            &&& !single::nan(confidence) ==> single::at_most(single::ZERO, m.confidence)
                && single::at_most(m.confidence, single::ONE)
            &&& src.usable() && target.usable() && single::at_most(single::ZERO, confidence)
                && single::at_most(confidence, single::ONE) ==> m.confidence == confidence
            &&& !single::less(single::ZERO, src.median_f0) || !single::less(
                single::ZERO,
                target.median_f0,
            ) ==> m.pitch_delta == single::ZERO
        }),
{
    single::zero_is_zero();
    single::one_is_one();
    single::non_negative_patterns_order_as_integers(single::ZERO, single::ONE);
}

/// Puts a match together. `confidence` is what the errors and the length of the
/// material come to, held between zero and one; it counts only where both voices are
/// usable. `pitch_delta`
/// counts only where both have a pitch.
pub fn matched(
    src: &TimbreProfile,
    target: &TimbreProfile,
    formant_shift: Bits,
    confidence: Bits,
    pitch_delta: Bits,
    tilt_delta: Bits,
) -> (m: TimbreMatch)
    ensures
        m == match_of(*src, *target, formant_shift, confidence, pitch_delta, tilt_delta),
{
    TimbreMatch {
        formant_shift,
        pitch_shift: single::ZERO,
        pitch_delta: if single::lt(single::ZERO, src.median_f0) && single::lt(
            single::ZERO,
            target.median_f0,
        ) {
            pitch_delta
        } else {
            single::ZERO
        },
        confidence: if src.is_usable() && target.is_usable() {
            single::clamp(confidence, single::ZERO, single::ONE)
        } else {
            single::ZERO
        },
        tilt_delta,
    }
}

/// The shift that comes out has the smallest error, and among equals it is the lowest shift,
/// unless no shift at all is already free of error.
pub proof fn the_smallest_error_wins(errs: Seq<Bits>, i: int, j: int)
    requires
        errs.len() == 33,
        best_at(errs, i),
        single::nan(errs[16]) || single::value(errs[16]) != 0,
        0 <= j < 33,
        !single::nan(errs[j]),
        single::value(errs[j]) < single::value(single::INFINITY),
    ensures
        0 <= i < 33,
        !single::nan(errs[i]),
        single::value(errs[i]) <= single::value(errs[j]),
        j < i ==> single::value(errs[i]) < single::value(errs[j]),
{
    assert(single::less(errs[j], single::INFINITY));
}

/// No shift comes out where no error is finite.
pub proof fn without_an_error_there_is_no_shift(errs: Seq<Bits>, i: int)
    requires
        errs.len() == 33,
        best_at(errs, i),
        forall|j: int|
            0 <= j < 33 ==> single::nan(#[trigger] errs[j]) || single::value(errs[j])
                >= single::value(single::INFINITY),
    ensures
        i == 16,
{
    assert forall|j: int| 0 <= j < errs.len() implies !single::less(
        #[trigger] errs[j],
        single::INFINITY,
    ) by {}
}

/// More of the same voice stays usable, and a voice without a pitch never is.
pub proof fn more_voice_stays_usable(a: TimbreProfile, b: TimbreProfile)
    requires
        a.usable(),
        !single::nan(b.voiced_secs),
        single::value(a.voiced_secs) <= single::value(b.voiced_secs),
        !single::nan(b.median_f0),
    ensures
        b.usable() <==> single::value(b.median_f0) > 0,
        single::value(a.median_f0) > 0,
        single::value(a.voiced_secs) >= single::value(MIN_VOICED_SECS),
{
    single::zero_is_zero();
}

/// The finite errors of two stretches are those of the first and then those of the second;
/// a single error stays where it is a finite number and goes where it is not.
pub proof fn finite_errors_keep_their_order(a: Seq<Bits>, b: Seq<Bits>, e: Bits)
    ensures
        finite_errors(a + b) == finite_errors(a) + finite_errors(b),
        e % 0x8000_0000 < 0x7F80_0000 ==> finite_errors(seq![e]) == seq![e],
        e % 0x8000_0000 >= 0x7F80_0000 ==> finite_errors(seq![e]) == Seq::<Bits>::empty(),
    decreases b.len(),
{
    if b.len() == 0 {
        assert(a + b =~= a);
        assert(finite_errors(b) =~= Seq::<Bits>::empty());
        assert(finite_errors(a) + finite_errors(b) =~= finite_errors(a));
    } else {
        finite_errors_keep_their_order(a, b.drop_last(), e);
        assert((a + b).drop_last() =~= a + b.drop_last());
        assert((a + b).last() == b.last());
        assert(finite_errors(a + b) =~= finite_errors(a) + finite_errors(b));
    }
    let one = seq![e];
    assert(one.drop_last() =~= Seq::<Bits>::empty());
    assert(finite_errors(one.drop_last()) =~= Seq::<Bits>::empty());
    assert(finite_errors(one) =~= if e % 0x8000_0000 < 0x7F80_0000 {
        one
    } else {
        Seq::<Bits>::empty()
    });
}

/// Turned round, the errors have the same sides the other way round.
pub proof fn sides_turn_with_the_errors(errs: Seq<Bits>, turned: Seq<Bits>, i: int)
    requires
        errs.len() == 33,
        turned.len() == 33,
        forall|j: int| 0 <= j < 33 ==> #[trigger] turned[j] == errs[32 - j],
    ensures
        sides_of(errs, i) matches Some(s) ==> sides_of(turned, 32 - i) == Some((s.1, s.0)),
        sides_of(errs, i) is None ==> sides_of(turned, 32 - i) is None,
        sides_of(errs, i) matches Some(s) ==> s.0 == errs[i - 1] && s.1 == errs[i + 1],
{
}

/// Shifted back, an envelope meets itself at the same places; unshifted it meets itself
/// everywhere.
pub proof fn a_shift_meets_itself_back(n: int, s: int, i: int)
    ensures
        meets(n, s, i) <==> meets(n, -s, i - s),
        0 <= i < n ==> meets(n, 0, i),
        meets(n, s, i) ==> 0 <= i < n && vstd::math::abs(s) < n,
{
}

} // verus!
