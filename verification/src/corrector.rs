//! The corrector: when to analyse, what an analysis decides, and what it asks
//! of the synthesis.
use crate::noise::NoiseGate;
use crate::psola::{self, Psola};
use crate::scale::{Key, RetuneFrame, Retuner};
use crate::single::{self, Bits};
use crate::tilt::{self, Tilt};
use crate::yin::PitchEstimate;
use vstd::prelude::*;

verus! {

/// Peaks from 0.999 on count as clipping.
pub const CLIPPING_PEAK: Bits = 0x3F7F_BE77;

/// Twelve semitones up and down, the limits of the character shifts.
pub const OCTAVE_UP: Bits = 0x4140_0000;

pub const OCTAVE_DOWN: Bits = 0xC140_0000;

/// Everything that one analysis frame shows.
#[derive(Clone, Copy, PartialEq, Eq, Structural, Debug)]
pub struct AnalysisFrame {
    pub f0_hz: Bits,
    pub is_voiced: bool,
    pub aperiodicity: Bits,
    /// Level of the input, linear.
    pub rms: Bits,
    /// Did the input clip?
    pub clipping: bool,
    /// The note to go to.
    pub target_midi: i32,
    /// Distance from it, in cents.
    pub cents_off: Bits,
    /// The ratio applied.
    pub ratio: Bits,
    /// Was the correction cut?
    pub clamped: bool,
    /// The noise floor, linear.
    pub noise_floor: Bits,
    /// Did the frame pass the noise gate? Where it did not, pitch detection did
    /// not run.
    pub gate_open: bool,
}

/// A frame of zeros.
pub open spec fn blank_frame() -> AnalysisFrame {
    AnalysisFrame {
        f0_hz: 0,
        is_voiced: false,
        aperiodicity: 0,
        rms: 0,
        clipping: false,
        target_midi: 0,
        cents_off: 0,
        ratio: 0,
        clamped: false,
        noise_floor: 0,
        gate_open: false,
    }
}

impl Default for AnalysisFrame {
    fn default() -> (f: AnalysisFrame)
        ensures
            f == blank_frame(),
    {
        AnalysisFrame {
            f0_hz: 0,
            is_voiced: false,
            aperiodicity: 0,
            rms: 0,
            clipping: false,
            target_midi: 0,
            cents_off: 0,
            ratio: 0,
            clamped: false,
            noise_floor: 0,
            gate_open: false,
        }
    }
}

/// The corrector's state.
pub struct Corrector {
    pub psola: Psola,
    pub gate: NoiseGate,
    pub retuner: Retuner,
    pub tilt: Tilt,
    /// The newest input samples, the ones that pitch detection reads.
    pub analysis: Vec<Bits>,
    /// An analysis is due after so many samples.
    pub hop: usize,
    /// Samples since the last analysis.
    pub since_analysis: usize,
    pub frame: AnalysisFrame,
    pub bypass: bool,
    pub pitch_shift: Bits,
    pub formant_shift: Bits,
}

/// The newest `buf.len()` samples of what was there and what came.
pub open spec fn newest(buf: Seq<Bits>, src: Seq<Bits>) -> Seq<Bits> {
    (buf + src).subrange(src.len() as int, (buf.len() + src.len()) as int)
}

/// Moves new samples into a buffer that keeps the newest ones.
pub fn feed_analysis(buf: &mut Vec<Bits>, src: &[Bits])
    ensures
        final(buf)@ == newest(old(buf)@, src@),
{
    let len: usize = buf.len();
    let n: usize = src.len();
    if n >= len {
        let mut i: usize = 0;
        while i < len
            invariant
                len == buf@.len(),
                len == old(buf)@.len(),
                n == src@.len(),
                n >= len,
                i <= len,
                forall|j: int| 0 <= j < i ==> buf@[j] == src@[n - len + j],
            decreases len - i,
        {
            buf[i] = src[n - len + i];
            i = i + 1;
        }
    } else {
        let mut i: usize = 0;
        while i < len - n
            invariant
                len == buf@.len(),
                len == old(buf)@.len(),
                n < len,
                i <= len - n,
                forall|j: int| 0 <= j < i ==> buf@[j] == old(buf)@[n + j],
                forall|j: int| i <= j < len ==> buf@[j] == old(buf)@[j],
            decreases len - n - i,
        {
            buf[i] = buf[n + i];
            i = i + 1;
        }
        while i < len
            invariant
                len == buf@.len(),
                len == old(buf)@.len(),
                n == src@.len(),
                n < len,
                len - n <= i <= len,
                forall|j: int| 0 <= j < len - n ==> buf@[j] == old(buf)@[n + j],
                forall|j: int| len - n <= j < i ==> buf@[j] == src@[j - (len - n)],
            decreases len - i,
        {
            buf[i] = src[i - (len - n)];
            i = i + 1;
        }
    }
    assert(buf@ =~= newest(old(buf)@, src@));
}

impl Corrector {
    /// What holds of every corrector.
    pub open spec fn wf(&self) -> bool {
        &&& self.psola.wf()
        &&& self.psola.shortest() <= self.psola.longest()
        &&& self.since_analysis < self.hop
        &&& self.tilt.wf()
    }

    /// A corrector that analyses the newest `analysis_len` samples after every
    /// `hop` samples.
    pub fn new(psola: Psola, gate: NoiseGate, retuner: Retuner, analysis_len: usize, hop: usize) -> (c:
        Corrector)
        requires
            psola.wf(),
            psola.shortest() <= psola.longest(),
            hop > 0,
        ensures
            c.wf(),
            c.psola == psola,
            c.gate == gate,
            c.retuner == retuner,
            c.tilt.db_per_oct == single::ZERO,
            c.hop == hop,
            c.since_analysis == 0,
            c.analysis@ == Seq::new(analysis_len as nat, |i: int| single::ZERO),
            c.frame == blank_frame(),
            !c.bypass,
            c.pitch_shift == single::ZERO,
            c.formant_shift == single::ZERO,
    {
        let analysis: Vec<Bits> = vec![single::ZERO; analysis_len];
        assert(analysis@ =~= Seq::new(analysis_len as nat, |i: int| single::ZERO));
        Corrector {
            psola,
            gate,
            retuner,
            tilt: Tilt::new(),
            analysis,
            hop,
            since_analysis: 0,
            frame: AnalysisFrame::default(),
            bypass: false,
            pitch_shift: single::ZERO,
            formant_shift: single::ZERO,
        }
    }

    /// The delay from input to output, in samples.
    pub open spec fn delay(&self) -> int {
        2 * self.psola.longest()
    }

    /// The fixed delay of the audio path, in samples. Analysis adds nothing to
    /// it: that reads what is there already.
    pub fn latency_samples(&self) -> (d: u64)
        requires
            self.wf(),
        ensures
            d == self.delay(),
    {
        self.psola.latency_samples()
    }

    /// Switches correction and character off or on. The delay stays.
    pub fn set_bypass(&mut self, bypass: bool)
        ensures
            *final(self) == (Corrector { bypass, ..*old(self) }),
    {
        self.bypass = bypass;
    }

    /// Is correction switched off?
    pub fn is_bypassed(&self) -> (b: bool)
        ensures
            b == self.bypass,
    {
        self.bypass
    }

    /// Changes the key.
    pub fn set_key(&mut self, key: Key)
        ensures
            *final(self) == (Corrector {
                retuner: Retuner { key, ..old(self).retuner },
                ..*old(self)
            }),
    {
        self.retuner.set_key(key);
    }

    /// The key.
    pub fn key(&self) -> (k: Key)
        ensures
            k == self.retuner.key,
    {
        self.retuner.key()
    }

    /// Sets the correction time; a negative one counts as zero.
    pub fn set_retune_ms(&mut self, ms: Bits)
        ensures
            *final(self) == (Corrector {
                retuner: Retuner {
                    retune_ms: single::larger(ms, single::ZERO),
                    ..old(self).retuner
                },
                ..*old(self)
            }),
    {
        self.retuner.set_retune_ms(ms);
    }

    /// Sets the overall transposition in semitones, held within an octave.
    pub fn set_pitch_shift(&mut self, semitones: Bits)
        ensures
            *final(self) == (Corrector {
                pitch_shift: single::clamped(semitones, OCTAVE_DOWN, OCTAVE_UP),
                ..*old(self)
            }),
    {
        self.pitch_shift = single::clamp(semitones, OCTAVE_DOWN, OCTAVE_UP);
    }

    /// Sets the formant shift in semitones, held within an octave.
    pub fn set_formant_shift(&mut self, semitones: Bits)
        ensures
            *final(self) == (Corrector {
                formant_shift: single::clamped(semitones, OCTAVE_DOWN, OCTAVE_UP),
                ..*old(self)
            }),
    {
        self.formant_shift = single::clamp(semitones, OCTAVE_DOWN, OCTAVE_UP);
    }

    /// The overall transposition in semitones.
    pub fn pitch_shift(&self) -> (s: Bits)
        ensures
            s == self.pitch_shift,
    {
        self.pitch_shift
    }

    /// The formant shift in semitones.
    pub fn formant_shift(&self) -> (s: Bits)
        ensures
            s == self.formant_shift,
    {
        self.formant_shift
    }

    /// Sets the tilt of the spectrum in decibels per octave, as
    /// [`Tilt::set_db_per_oct`] does.
    pub fn set_tilt_db_per_oct(&mut self, s: Bits) -> (changed: bool)
        requires
            old(self).wf(),
        ensures
            final(self).wf(),
            *final(self) == (Corrector { tilt: final(self).tilt, ..*old(self) }),
            ({
                let held = single::clamped(s, tilt::MIN_DB_PER_OCT, tilt::MAX_DB_PER_OCT);
                let was = old(self).tilt.db_per_oct;
                &&& changed == !(!single::nan(held) && !single::nan(was) && single::value(held)
                    == single::value(was))
                &&& final(self).tilt.db_per_oct == (if changed {
                    held
                } else {
                    was
                })
            }),
    {
        self.tilt.set_db_per_oct(s)
    }

    /// The tilt of the spectrum in decibels per octave.
    pub fn tilt_db_per_oct(&self) -> (s: Bits)
        ensures
            s == self.tilt.db_per_oct,
    {
        self.tilt.db_per_oct()
    }

    /// Does the output go through the tilt? Bypass leaves it out along with
    /// everything else, so that two sides of a comparison differ in nothing more.
    pub fn is_tilted(&self) -> (r: bool)
        requires
            self.wf(),
        ensures
            r == (!self.bypass && !tilt::flat(self.tilt.db_per_oct)),
    {
        !self.bypass && !self.tilt.bypass
    }

    /// Sets the margin of the noise gate, held between 0 and 40 decibels.
    pub fn set_noise_gate_db(&mut self, db: Bits)
        ensures
            *final(self) == (Corrector {
                gate: NoiseGate {
                    margin_db: single::clamped(db, single::ZERO, crate::noise::MAX_MARGIN_DB),
                    ..old(self).gate
                },
                ..*old(self)
            }),
    {
        self.gate.set_margin_db(db);
    }

    /// The noise floor.
    pub fn noise_floor(&self) -> (f: Bits)
        ensures
            f == self.gate.floor,
    {
        self.gate.floor()
    }

    /// Learns the noise floor anew.
    pub fn reset_noise_gate(&mut self)
        ensures
            *final(self) == (Corrector {
                gate: NoiseGate {
                    floor: crate::noise::ABSOLUTE_FLOOR,
                    observed: 0,
                    seeded: false,
                    ..old(self).gate
                },
                ..*old(self)
            }),
    {
        self.gate.reset();
    }

    /// The newest analysis frame.
    pub fn last_frame(&self) -> (f: AnalysisFrame)
        ensures
            f == self.frame,
    {
        self.frame
    }

    /// Samples that were read before they were finished.
    pub fn underruns(&self) -> (u: u64)
        ensures
            u == self.psola.underrun_count(),
    {
        self.psola.underruns()
    }

    /// How much of `left` samples to take before the next analysis is due.
    pub fn next_take(&self, left: usize) -> (take: usize)
        requires
            self.wf(),
        ensures
            take == take_of(self.since_analysis as int, self.hop as int, left as int),
            left > 0 ==> 0 < take <= left,
            self.since_analysis + take <= self.hop,
    {
        let room: usize = self.hop - self.since_analysis;
        if room < left {
            room
        } else {
            left
        }
    }

    /// Takes samples in for analysis, and says whether an analysis is due.
    pub fn take_in(&mut self, src: &[Bits]) -> (due: bool)
        requires
            old(self).wf(),
            old(self).since_analysis + src@.len() <= old(self).hop,
        ensures
            final(self).wf(),
            due == (old(self).since_analysis + src@.len() == old(self).hop),
            final(self).since_analysis == (if due {
                0
            } else {
                old(self).since_analysis + src@.len()
            }),
            final(self).analysis@ == newest(old(self).analysis@, src@),
            *final(self) == (Corrector {
                analysis: final(self).analysis,
                since_analysis: final(self).since_analysis,
                ..*old(self)
            }),
    {
        feed_analysis(&mut self.analysis, src);
        self.since_analysis = self.since_analysis + src.len();
        if self.since_analysis >= self.hop {
            self.since_analysis = 0;
            true
        } else {
            false
        }
    }

    /// The frame is not voice: the noise gate was shut, or it let the frame pass
    /// (`gate_open`) and pitch detection found no pitch. The noise floor learns
    /// from it (`fallen` and `risen` as for [`NoiseGate::update`]), the phrase
    /// ends, and the synthesis goes back to passing the input through.
    pub fn unvoiced_frame(
        &mut self,
        rms: Bits,
        peak: Bits,
        aperiodicity: Bits,
        gate_open: bool,
        fallen: Bits,
        risen: Bits,
    )
        requires
            old(self).wf(),
        ensures
            final(self).wf(),
            !final(self).psola.is_voiced(),
            final(self).psola.ratio_bits() == single::ONE,
            final(self).psola.formant_bits() == single::ONE,
            final(self).psola.period_now() == old(self).psola.period_now(),
            final(self).psola.unmoved_from(&old(self).psola),
            final(self).delay() == old(self).delay(),
            old(self).psola.is_voiced() ==> final(self).psola.marks().len() == 0
                && !final(self).psola.synthesizing(),
            !old(self).psola.is_voiced() ==> final(self).psola.marks() == old(self).psola.marks()
                && final(self).psola.synthesizing() == old(self).psola.synthesizing()
                && final(self).psola.next_mark() == old(self).psola.next_mark(),
            final(self).gate == old(self).gate.taught(rms, old(self).hop as int, fallen, risen),
            final(self).retuner == (Retuner {
                initialized: false,
                smoothed_log_ratio: single::ZERO,
                ..old(self).retuner
            }),
            final(self).frame == (AnalysisFrame {
                aperiodicity,
                rms,
                clipping: single::at_most(CLIPPING_PEAK, peak),
                ratio: single::ONE,
                noise_floor: final(self).gate.floor,
                gate_open,
                ..blank_frame()
            }),
            *final(self) == (Corrector {
                psola: final(self).psola,
                gate: final(self).gate,
                retuner: final(self).retuner,
                frame: final(self).frame,
                ..*old(self)
            }),
    {
        self.gate.update(rms, self.hop, fallen, risen);
        self.retuner.reset();
        self.psola.set_pitch(single::ZERO, 0, false);
        self.psola.set_ratio(single::ONE);
        self.psola.set_formant(single::ONE);
        proof {
            single::non_negative_patterns_order_as_integers(single::ONE, psola::HALF);
            single::non_negative_patterns_order_as_integers(psola::TWO, single::ONE);
        }
        self.frame = AnalysisFrame {
            f0_hz: single::ZERO,
            is_voiced: false,
            aperiodicity,
            rms,
            clipping: single::le(CLIPPING_PEAK, peak),
            target_midi: 0,
            cents_off: single::ZERO,
            ratio: single::ONE,
            clamped: false,
            noise_floor: self.gate.floor(),
            gate_open,
        };
    }

    /// The frame is voice. `period` is the period of the estimate in samples,
    /// `shifted` the retuner's ratio with the transposition on top, `formant`
    /// the formant factor. Bypass leaves both shifts out. The noise floor is
    /// frozen: a held note must not lift it.
    pub fn voiced_frame(
        &mut self,
        est: PitchEstimate,
        period: usize,
        rt: RetuneFrame,
        shifted: Bits,
        formant: Bits,
        rms: Bits,
        peak: Bits,
    )
        requires
            old(self).wf(),
        ensures
            final(self).wf(),
            final(self).psola.is_voiced(),
            final(self).psola.period_now() == (if single::less(single::ZERO, est.f0_hz) {
                psola::held(
                    period as int,
                    old(self).psola.shortest(),
                    old(self).psola.longest(),
                )
            } else {
                old(self).psola.period_now() as int
            }),
            final(self).psola.ratio_bits() == single::clamped(
                if old(self).bypass {
                    single::ONE
                } else {
                    shifted
                },
                psola::HALF,
                psola::TWO,
            ),
            final(self).psola.formant_bits() == single::clamped(
                if old(self).bypass {
                    single::ONE
                } else {
                    formant
                },
                psola::HALF,
                psola::TWO,
            ),
            final(self).psola.unmoved_from(&old(self).psola),
            final(self).delay() == old(self).delay(),
            old(self).bypass ==> final(self).psola.ratio_bits() == single::ONE
                && final(self).psola.formant_bits() == single::ONE,
            final(self).psola.marks() == old(self).psola.marks(),
            final(self).psola.synthesizing() == old(self).psola.synthesizing(),
            final(self).psola.next_mark() == old(self).psola.next_mark(),
            // A held note does not lift the noise floor.
            final(self).gate == old(self).gate,
            final(self).frame == (AnalysisFrame {
                f0_hz: est.f0_hz,
                is_voiced: true,
                aperiodicity: est.aperiodicity,
                rms,
                clipping: single::at_most(CLIPPING_PEAK, peak),
                target_midi: rt.target_midi,
                cents_off: rt.cents_off,
                ratio: if old(self).bypass {
                    single::ONE
                } else {
                    shifted
                },
                clamped: rt.clamped,
                noise_floor: old(self).gate.floor,
                gate_open: true,
            }),
            *final(self) == (Corrector {
                psola: final(self).psola,
                frame: final(self).frame,
                ..*old(self)
            }),
            // Without bypass, what lies in range is taken as it is.
            !old(self).bypass && single::at_most(psola::HALF, shifted) && single::at_most(
                shifted,
                psola::TWO,
            ) ==> final(self).psola.ratio_bits() == shifted,
            !old(self).bypass && single::at_most(psola::HALF, formant) && single::at_most(
                formant,
                psola::TWO,
            ) ==> final(self).psola.formant_bits() == formant,
            single::less(single::ZERO, est.f0_hz) && old(self).psola.shortest() <= period
                <= old(self).psola.longest() ==> final(self).psola.period_now() == period,
            !single::nan(peak) ==> (final(self).frame.clipping <==> single::value(peak)
                >= single::value(CLIPPING_PEAK)),
    {
        let (ratio, formant): (Bits, Bits) = if self.bypass {
            (single::ONE, single::ONE)
        } else {
            (shifted, formant)
        };
        proof {
            single::non_negative_patterns_order_as_integers(single::ONE, psola::HALF);
            single::non_negative_patterns_order_as_integers(psola::TWO, single::ONE);
        }
        self.psola.set_pitch(est.f0_hz, period, true);
        self.psola.set_ratio(ratio);
        self.psola.set_formant(formant);
        self.frame = AnalysisFrame {
            f0_hz: est.f0_hz,
            is_voiced: true,
            aperiodicity: est.aperiodicity,
            rms,
            clipping: single::le(CLIPPING_PEAK, peak),
            target_midi: rt.target_midi,
            cents_off: rt.cents_off,
            ratio,
            clamped: rt.clamped,
            noise_floor: self.gate.floor(),
            gate_open: true,
        };
    }
}

/// How much of `left` samples is taken before the next analysis is due.
pub open spec fn take_of(since: int, hop: int, left: int) -> int {
    if hop - since < left {
        hop - since
    } else {
        left
    }
}

/// The number of analyses in a block of `n` samples that starts `since` samples
/// after the last one, and the count after the block.
pub open spec fn analyses_in(since: int, hop: int, n: int) -> (int, int)
    decreases n,
    when 0 <= since < hop && 0 <= n
{
    if n == 0 {
        (0, since)
    } else {
        let take = take_of(since, hop, n);
        if since + take >= hop {
            let rest = analyses_in(0, hop, n - take);
            (rest.0 + 1, rest.1)
        } else {
            analyses_in(since + take, hop, n - take)
        }
    }
}

/// Analyses come every `hop` samples, whatever the block size: a block of `n`
/// samples holds as many as the running count passes multiples of `hop`.
pub proof fn analyses_come_every_hop(since: int, hop: int, n: int)
    requires
        0 <= since < hop,
        0 <= n,
    ensures
        analyses_in(since, hop, n) == ((since + n) / hop, (since + n) % hop),
    decreases n,
{
    if n == 0 {
        vstd::arithmetic::div_mod::lemma_basic_div(since, hop);
        vstd::arithmetic::div_mod::lemma_small_mod(since as nat, hop as nat);
    } else {
        let take = take_of(since, hop, n);
        if since + take >= hop {
            analyses_come_every_hop(0, hop, n - take);
            vstd::arithmetic::div_mod::lemma_div_plus_one(since + n - hop, hop);
            vstd::arithmetic::div_mod::lemma_mod_add_multiples_vanish(since + n - hop, hop);
        } else {
            analyses_come_every_hop(since + take, hop, n - take);
        }
    }
}

/// Bypassing the correction leaves the delay as it is, so that the voice with and
/// without it can be compared; so do a new key, other shifts and another tilt.
pub proof fn settings_keep_the_delay(
    c: Corrector,
    bypass: bool,
    retuner: Retuner,
    pitch_shift: Bits,
    formant_shift: Bits,
    tilt: Tilt,
)
    ensures
        (Corrector { bypass, retuner, pitch_shift, formant_shift, tilt, ..c }).delay() == c.delay(),
{
}

/// Cutting a block in two changes nothing about when analyses come.
pub proof fn block_size_does_not_move_analyses(since: int, hop: int, m: int, n: int)
    requires
        0 <= since < hop,
        0 <= m,
        0 <= n,
    ensures
        ({
            let first = analyses_in(since, hop, m);
            let second = analyses_in(first.1, hop, n);
            analyses_in(since, hop, m + n) == (first.0 + second.0, second.1)
        }),
{
    analyses_come_every_hop(since, hop, m);
    analyses_come_every_hop(since, hop, m + n);
    let s = (since + m) % hop;
    vstd::arithmetic::div_mod::lemma_mod_bound(since + m, hop);
    analyses_come_every_hop(s, hop, n);
    let q = (since + m) / hop;
    vstd::arithmetic::div_mod::lemma_fundamental_div_mod(since + m, hop);
    vstd::arithmetic::div_mod::lemma_hoist_over_denominator(s + n, q, hop as nat);
    assert(since + m + n == s + n + q * hop) by (nonlinear_arith)
        requires
            since + m == hop * q + s,
    ;
    vstd::arithmetic::div_mod::lemma_mod_multiples_vanish(q, s + n, hop);
    assert(hop * q + (s + n) == since + m + n) by (nonlinear_arith)
        requires
            since + m == hop * q + s,
    ;
}

/// A buffer that is fed keeps its length and ends with what it was fed; what it held before
/// moves forward by as much and drops out at the front.
pub proof fn a_buffer_keeps_the_newest(buf: Seq<Bits>, src: Seq<Bits>, back: int)
    requires
        0 <= back < buf.len(),
    ensures
        newest(buf, src).len() == buf.len(),
        back < src.len() ==> newest(buf, src)[buf.len() - 1 - back] == src[src.len() - 1 - back],
        back >= src.len() ==> newest(buf, src)[buf.len() - 1 - back] == buf[buf.len() - 1 - (back
            - src.len())],
{
}

/// Feeding in two goes is feeding all at once.
pub proof fn feeding_can_be_split(buf: Seq<Bits>, a: Seq<Bits>, b: Seq<Bits>)
    ensures
        newest(newest(buf, a), b) == newest(buf, a + b),
        newest(buf, Seq::empty()) == buf,
{
    assert(newest(newest(buf, a), b) =~= newest(buf, a + b));
    assert(newest(buf, Seq::empty()) =~= buf);
}

} // verus!
