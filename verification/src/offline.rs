//! Pitch tracks of finished recordings: which samples each frame looks at, and
//! how a raw track is put right.
//!
//! A track is put right in three steps, in this order. Frames that lie whole
//! octaves off their neighbours are brought back first, since one of them would
//! spoil the medians. Then a median filter takes single spikes out. Short
//! dropouts inside a note are closed last.
use crate::psola::{self, Psola};
use crate::scale::Key;
use crate::single::{self, Bits};
use crate::sorting;
use crate::yin::PitchEstimate;
use vstd::prelude::*;

verus! {

/// Samples from one frame to the next.
pub const HOP: usize = 128;

/// Frames that the median filter looks at.
pub const MEDIAN_WIDTH: usize = 5;

/// The longest dropout that is closed, in frames. What is longer is a breath.
pub const MAX_GAP: usize = 8;

/// Frames on each side that say in which octave a frame should lie.
pub const NEIGHBOURS: usize = 12;

/// Frames between two progress reports.
pub const REPORT_EVERY: usize = 64;

/// Two, the most octaves that a frame is brought back.
pub const MAX_OCTAVES: Bits = 0x4000_0000;

/// 0.12 of an octave: nearer than this to a whole number of octaves is an octave
/// error.
pub const OCTAVE_TOLERANCE: Bits = 0x3DF5_C28F;

/// The largest finite number.
pub const LARGEST: Bits = 0x7F7F_FFFF;

/// The pitch of one frame.
#[derive(Clone, Copy, PartialEq, Eq, Structural, Debug)]
pub struct PitchFrame {
    /// Pitch in Hz, zero where the frame is not voiced.
    pub f0: Bits,
    pub voiced: bool,
    /// How far the frame is from repeating itself; small is certain.
    pub aperiodicity: Bits,
    pub rms: Bits,
}

impl Default for PitchFrame {
    fn default() -> (f: PitchFrame)
        ensures
            f == (PitchFrame {
                f0: single::ZERO,
                voiced: false,
                aperiodicity: single::ZERO,
                rms: single::ZERO,
            }),
    {
        PitchFrame { f0: 0, voiced: false, aperiodicity: 0, rms: 0 }
    }
}

impl PitchFrame {
    /// The frame for an estimate. One without a definite pitch has a pitch of zero.
    pub open spec fn of(est: PitchEstimate, rms: Bits) -> PitchFrame {
        PitchFrame {
            f0: if est.is_voiced {
                est.f0_hz
            } else {
                single::ZERO
            },
            voiced: est.is_voiced,
            aperiodicity: est.aperiodicity,
            rms,
        }
    }

    /// The frame for an estimate at a level.
    pub fn heard(est: PitchEstimate, rms: Bits) -> (f: PitchFrame)
        ensures
            f == PitchFrame::of(est, rms),
    {
        PitchFrame {
            f0: if est.is_voiced {
                est.f0_hz
            } else {
                single::ZERO
            },
            voiced: est.is_voiced,
            aperiodicity: est.aperiodicity,
            rms,
        }
    }
}

/// The pitch of a whole recording.
pub struct PitchTrack {
    pub frames: Vec<PitchFrame>,
    pub hop: usize,
    pub sample_rate: Bits,
    /// Frames that were brought back by octaves.
    pub octave_fixes: usize,
    /// Frames in closed dropouts.
    pub gap_fills: usize,
}

/// How a recording is corrected once more.
#[derive(Clone, Copy, PartialEq, Eq, Structural, Debug)]
pub struct RecorrectConfig {
    pub key: Key,
    /// How fast the correction acts, in milliseconds; zero is at once.
    pub retune_ms: Bits,
    /// How fast the intended pitch follows, in milliseconds. Only the intended
    /// pitch is drawn to the scale, so this has to be much slower than
    /// `retune_ms` for a vibrato to stay.
    pub intent_ms: Bits,
    /// Transposition, in semitones.
    pub pitch_shift: Bits,
    /// Shift of the formants, in semitones.
    pub formant_shift: Bits,
}

impl Default for RecorrectConfig {
    fn default() -> (c: RecorrectConfig)
        ensures
            c == (RecorrectConfig {
                key: Key { tonic: 0, scale: crate::scale::ScaleKind::Chromatic },
                retune_ms: 0x4220_0000,
                intent_ms: 0x4316_0000,
                pitch_shift: single::ZERO,
                formant_shift: single::ZERO,
            }),
    {
        RecorrectConfig {
            key: Key::default(),
            retune_ms: 0x4220_0000,
            intent_ms: 0x4316_0000,
            pitch_shift: 0,
            formant_shift: 0,
        }
    }
}

/// A run of frames.
#[derive(Clone, Copy, PartialEq, Eq, Structural, Debug)]
pub struct Run {
    pub start: usize,
    pub end: usize,
}

/// Is it a number above zero?
pub open spec fn positive(b: Bits) -> bool {
    single::less(single::ZERO, b)
}

/// Does the frame carry a pitch?
pub open spec fn sounds(f: PitchFrame) -> bool {
    f.voiced && positive(f.f0)
}

/// The pitches of the voiced frames.
pub open spec fn voiced_f0s(frames: Seq<PitchFrame>) -> Seq<Bits>
    decreases frames.len(),
{
    if frames.len() == 0 {
        Seq::empty()
    } else {
        let before = voiced_f0s(frames.drop_last());
        if frames.last().voiced {
            before.push(frames.last().f0)
        } else {
            before
        }
    }
}

fn collect_voiced(frames: &Vec<PitchFrame>) -> (v: Vec<Bits>)
    ensures
        v@ == voiced_f0s(frames@),
{
    let mut v: Vec<Bits> = Vec::new();
    let mut i: usize = 0;
    assert(frames@.take(0) =~= Seq::<PitchFrame>::empty());
    while i < frames.len()
        invariant
            i <= frames@.len(),
            v@ == voiced_f0s(frames@.take(i as int)),
        decreases frames@.len() - i,
    {
        assert(frames@.take(i + 1).drop_last() =~= frames@.take(i as int));
        if frames[i].voiced {
            v.push(frames[i].f0);
        }
        i = i + 1;
    }
    assert(frames@.take(i as int) =~= frames@);
    v
}

impl PitchTrack {
    /// A track as it was heard: nothing has been put right in it.
    pub fn raw(frames: Vec<PitchFrame>, sample_rate: Bits) -> (t: PitchTrack)
        ensures
            t.frames@ == frames@,
            t.hop == HOP,
            t.sample_rate == sample_rate,
            t.octave_fixes == 0,
            t.gap_fills == 0,
    {
        PitchTrack { frames, hop: HOP, sample_rate, octave_fixes: 0, gap_fills: 0 }
    }

    /// The number of voiced frames.
    pub fn voiced_count(&self) -> (n: usize)
        ensures
            n == voiced_f0s(self.frames@).len(),
    {
        let v: Vec<Bits> = collect_voiced(&self.frames);
        v.len()
    }

    /// The median pitch of the voiced frames, zero where there are none.
    pub fn median_f0(&self) -> (m: Bits)
        ensures
            voiced_f0s(self.frames@).len() == 0 ==> m == single::ZERO,
            voiced_f0s(self.frames@).len() > 0 ==> sorting::is_nth(
                voiced_f0s(self.frames@),
                voiced_f0s(self.frames@).len() as int / 2,
                m,
            ),
    {
        let v: Vec<Bits> = collect_voiced(&self.frames);
        if v.len() == 0 {
            return single::ZERO;
        }
        sorting::nth(&v, v.len() / 2)
    }

    /// The sample at which frame `i` begins.
    pub fn frame_pos(&self, i: usize) -> (p: usize)
        requires
            i * self.hop <= usize::MAX,
        ensures
            p == i * self.hop,
    {
        i * self.hop
    }
}

/// The number of whole frames in `samples` samples.
pub fn frame_count(samples: usize) -> (n: usize)
    ensures
        n == samples as int / HOP as int,
        n * HOP <= samples,
{
    samples / HOP
}

/// What frame `i` looks at: the `win` samples up to its end, with `zero` where
/// the recording has not begun.
pub open spec fn window_at<T>(samples: Seq<T>, i: int, win: int, zero: T) -> Seq<T> {
    let end = if i * HOP + HOP < samples.len() {
        i * HOP + HOP
    } else {
        samples.len() as int
    };
    Seq::new(
        win as nat,
        |k: int|
            if end - win + k < 0 {
                zero
            } else {
                samples[end - win + k]
            },
    )
}

/// Fills `window` with what frame `i` looks at. The window keeps its length.
pub fn fill_window<T: Copy>(samples: &[T], i: usize, zero: T, window: &mut Vec<T>)
    requires
        i * HOP + HOP <= usize::MAX,
    ensures
        final(window)@ == window_at(samples@, i as int, old(window)@.len() as int, zero),
{
    let total: usize = samples.len();
    let win: usize = window.len();
    let whole: usize = i * HOP + HOP;
    let end: usize = if whole < total {
        whole
    } else {
        total
    };
    let ghost want = window_at(samples@, i as int, win as int, zero);
    let mut k: usize = 0;
    while k < win
        invariant
            k <= win,
            window@.len() == win,
            end <= total,
            total == samples@.len(),
            whole == i * HOP + HOP,
            end == (if whole < total {
                whole
            } else {
                total
            }),
            want == window_at(samples@, i as int, win as int, zero),
            forall|j: int| 0 <= j < k ==> #[trigger] window@[j] == want[j],
        decreases win - k,
    {
        let back: usize = win - k;
        let x: T = if end < back {
            zero
        } else {
            samples[end - back]
        };
        window.set(k, x);
        k = k + 1;
    }
    assert(window@ =~= want);
}

/// Is progress reported after frame `i`? Reporting every frame would cost more
/// than analysing it.
pub open spec fn report_due_at(i: int) -> bool {
    i % REPORT_EVERY as int == 0
}

/// Is progress reported after frame `i`?
pub fn report_due(i: usize) -> (r: bool)
    ensures
        r == report_due_at(i as int),
{
    i % REPORT_EVERY == 0
}

/// What comes next in going through the frames of a recording.
#[derive(Clone, Copy, PartialEq, Eq, Structural, Debug)]
pub enum TrackStep {
    /// This frame.
    Frame(usize),
    /// Nothing: all frames have been gone through.
    Done,
    /// Nothing: a report was answered with a refusal.
    Stop,
}

/// What comes next once frame `i` of `n` is through, where `go_on` is the answer to
/// the report. The answer counts only where a report was due.
pub open spec fn step_after(i: int, n: int, go_on: bool) -> TrackStep {
    if report_due_at(i) && !go_on {
        TrackStep::Stop
    } else if i + 1 < n {
        TrackStep::Frame((i + 1) as usize)
    } else {
        TrackStep::Done
    }
}

/// Where going through `n` frames begins.
pub fn first_frame(n: usize) -> (step: TrackStep)
    ensures
        step == (if n > 0 {
            TrackStep::Frame(0)
        } else {
            TrackStep::Done
        }),
{
    if n > 0 {
        TrackStep::Frame(0)
    } else {
        TrackStep::Done
    }
}

/// What comes next once frame `i` of `n` is through.
pub fn after_frame(i: usize, n: usize, go_on: bool) -> (next: TrackStep)
    requires
        i < n,
    ensures
        next == step_after(i as int, n as int, go_on),
{
    if report_due(i) && !go_on {
        TrackStep::Stop
    } else if i + 1 < n {
        TrackStep::Frame(i + 1)
    } else {
        TrackStep::Done
    }
}

/// The frames after which progress is reported, in going through the frames from `i`
/// on; `answers` gives the answer to each report.
pub open spec fn reported(i: int, n: int, answers: spec_fn(int) -> bool) -> Seq<int>
    decreases n - i,
{
    if i >= n {
        Seq::empty()
    } else {
        let here = if report_due_at(i) {
            seq![i]
        } else {
            Seq::empty()
        };
        if step_after(i, n, answers(i)) is Frame {
            here + reported(i + 1, n, answers)
        } else {
            here
        }
    }
}

/// How going through the frames from `i` on ends.
pub open spec fn ending(i: int, n: int, answers: spec_fn(int) -> bool) -> TrackStep
    decreases n - i,
{
    if i >= n {
        TrackStep::Done
    } else if step_after(i, n, answers(i)) is Frame {
        ending(i + 1, n, answers)
    } else {
        step_after(i, n, answers(i))
    }
}

/// The number of the first report at frame `i` or later.
spec fn report_number(i: int) -> int {
    (i + REPORT_EVERY - 1) / REPORT_EVERY as int
}

proof fn lemma_reports(i: int, n: int, answers: spec_fn(int) -> bool)
    requires
        0 <= i <= n <= usize::MAX,
    ensures
        ({
            let r = reported(i, n, answers);
            let end = ending(i, n, answers);
            &&& forall|k: int|
                0 <= k < r.len() ==> #[trigger] r[k] == (report_number(i) + k) * REPORT_EVERY
                    && i <= r[k] < n
            &&& forall|k: int| 0 <= k < r.len() - 1 ==> answers(#[trigger] r[k])
            &&& end is Stop <==> r.len() > 0 && !answers(r.last())
            &&& end is Stop || end is Done
            &&& end is Done ==> r.len() == report_number(n) - report_number(i)
        }),
    decreases n - i,
{
    if i < n {
        let r = reported(i, n, answers);
        let rest = reported(i + 1, n, answers);
        lemma_reports(i + 1, n, answers);
        if step_after(i, n, answers(i)) is Frame {
            if report_due_at(i) {
                assert(r =~= seq![i] + rest);
                assert(report_number(i) * REPORT_EVERY == i);
                assert(report_number(i + 1) == report_number(i) + 1);
                assert forall|k: int| 0 <= k < r.len() implies #[trigger] r[k] == (report_number(i)
                    + k) * REPORT_EVERY && i <= r[k] < n by {
                    if k > 0 {
                        assert(r[k] == rest[k - 1]);
                    }
                }
                assert forall|k: int| 0 <= k < r.len() - 1 implies answers(#[trigger] r[k]) by {
                    if k > 0 {
                        assert(r[k] == rest[k - 1]);
                    }
                }
                if rest.len() > 0 {
                    assert(r.last() == rest.last());
                }
            } else {
                assert(r =~= rest);
                assert(report_number(i + 1) == report_number(i));
            }
        } else if report_due_at(i) {
            assert(report_number(i) * REPORT_EVERY == i);
            assert(r.len() == 1 && r[0] == i);
            assert(r.last() == i);
            if ending(i, n, answers) is Done {
                assert(report_number(n) == report_number(i) + 1);
            }
        } else {
            assert(report_number(n) == report_number(i));
        }
    }
}

/// Progress is reported after every 64th frame, the first of them first, in rising
/// order and never beyond the end; and the work breaks off at the first refusal, no
/// sooner and no later. Where no report is refused, all frames are gone through and
/// every report that is due has been made.
pub proof fn reports_rise_until_the_first_refusal(n: int, answers: spec_fn(int) -> bool)
    requires
        0 <= n <= usize::MAX,
    ensures
        ({
            let r = reported(0, n, answers);
            let end = ending(0, n, answers);
            &&& forall|k: int| 0 <= k < r.len() ==> #[trigger] r[k] == k * REPORT_EVERY && r[k] < n
            &&& forall|j: int, k: int| 0 <= j < k < r.len() ==> #[trigger] r[j] < #[trigger] r[k]
            &&& forall|k: int| 0 <= k < r.len() - 1 ==> answers(#[trigger] r[k])
            &&& end is Stop <==> r.len() > 0 && !answers(r.last())
            &&& end is Done <==> forall|i: int|
                0 <= i < n && #[trigger] report_due_at(i) ==> answers(i)
            &&& end is Done ==> r.len() == (n + REPORT_EVERY - 1) / REPORT_EVERY as int
            &&& end is Done || end is Stop
        }),
{
    lemma_reports(0, n, answers);
    let r = reported(0, n, answers);
    let end = ending(0, n, answers);
    assert(report_number(0) == 0);
    if end is Done {
        assert forall|i: int| 0 <= i < n && #[trigger] report_due_at(i) implies answers(i) by {
            let k = i / REPORT_EVERY as int;
            assert(k < r.len());
            assert(r[k] == i);
            if k == r.len() - 1 {
                assert(r.last() == i);
            }
        }
    } else {
        let k = r.len() - 1;
        assert(r[k] == r.last());
        assert(report_due_at(r.last()));
        assert(!answers(r.last()));
    }
}

/// The pitch by frame, zero where a frame is not voiced.
pub open spec fn contour(frames: Seq<PitchFrame>) -> Seq<Bits> {
    Seq::new(
        frames.len(),
        |i: int|
            if frames[i].voiced {
                frames[i].f0
            } else {
                single::ZERO
            },
    )
}

fn contour_of(frames: &Vec<PitchFrame>) -> (c: Vec<Bits>)
    ensures
        c@ == contour(frames@),
{
    let mut c: Vec<Bits> = Vec::with_capacity(frames.len());
    let mut i: usize = 0;
    while i < frames.len()
        invariant
            i <= frames@.len(),
            c@.len() == i,
            forall|j: int| 0 <= j < i ==> #[trigger] c@[j] == contour(frames@)[j],
        decreases frames@.len() - i,
    {
        let f: PitchFrame = frames[i];
        c.push(
            if f.voiced {
                f.f0
            } else {
                single::ZERO
            },
        );
        i = i + 1;
    }
    assert(c@ =~= contour(frames@));
    c
}

/// The pitches above zero from `lo` up to but without `hi`, and without `skip`.
pub open spec fn around(c: Seq<Bits>, lo: int, hi: int, skip: int) -> Seq<Bits>
    decreases hi - lo,
{
    if hi <= lo {
        Seq::empty()
    } else {
        let before = around(c, lo, hi - 1, skip);
        if hi - 1 != skip && positive(c[hi - 1]) {
            before.push(c[hi - 1])
        } else {
            before
        }
    }
}

/// The first frame that lies within `reach` of `i`.
pub open spec fn near_from(i: int, reach: int) -> int {
    if i < reach {
        0
    } else {
        i - reach
    }
}

/// One past the last frame that lies within `reach` of `i`.
pub open spec fn near_to(i: int, reach: int, len: int) -> int {
    if i + reach + 1 < len {
        i + reach + 1
    } else {
        len
    }
}

/// The pitches within `reach` of frame `i`: without its own where `others`
/// alone are asked for.
pub open spec fn near(c: Seq<Bits>, i: int, reach: int, others: bool) -> Seq<Bits> {
    around(
        c,
        near_from(i, reach),
        near_to(i, reach, c.len() as int),
        if others {
            i
        } else {
            -1
        },
    )
}

fn collect_near(c: &Vec<Bits>, i: usize, reach: usize, others: bool) -> (v: Vec<Bits>)
    requires
        i < c@.len(),
        reach <= 1000,
    ensures
        v@ == near(c@, i as int, reach as int, others),
{
    let total: usize = c.len();
    let lo: usize = if i < reach {
        0
    } else {
        i - reach
    };
    let hi: usize = if total - i <= reach {
        total
    } else {
        i + reach + 1
    };
    let ghost skip: int = if others {
        i as int
    } else {
        -1
    };
    let mut v: Vec<Bits> = Vec::new();
    let mut k: usize = lo;
    while k < hi
        invariant
            lo <= k <= hi <= c@.len(),
            skip == (if others {
                i as int
            } else {
                -1
            }),
            v@ == around(c@, lo as int, k as int, skip),
        decreases hi - k,
    {
        if !(others && k == i) && single::lt(single::ZERO, c[k]) {
            v.push(c[k]);
        }
        k = k + 1;
    }
    v
}

/// `m` is the median pitch round frame `i`, of at least `least` pitches.
pub open spec fn is_median(v: Seq<Bits>, least: int, r: Option<Bits>) -> bool {
    match r {
        Some(m) => v.len() >= least && sorting::is_nth(v, v.len() as int / 2, m),
        None => v.len() < least,
    }
}

fn median_of(v: &Vec<Bits>, least: usize) -> (r: Option<Bits>)
    requires
        least > 0,
    ensures
        is_median(v@, least as int, r),
{
    if v.len() < least {
        return None;
    }
    Some(sorting::nth(v, v.len() / 2))
}

/// `r` is the pitch that frame `i` should lie in one octave with: the median of
/// its neighbours. There is none where the frame is not voiced, has a pitch of
/// zero or less, or has fewer than four neighbours with a pitch.
pub open spec fn is_reference(frames: Seq<PitchFrame>, i: int, r: Option<Bits>) -> bool {
    if !frames[i].voiced || single::at_most(frames[i].f0, single::ZERO) {
        r is None
    } else {
        is_median(near(contour(frames), i, NEIGHBOURS as int, true), 4, r)
    }
}

/// For each frame the pitch that it should lie in one octave with.
pub fn octave_references(frames: &Vec<PitchFrame>) -> (out: Vec<Option<Bits>>)
    ensures
        out@.len() == frames@.len(),
        forall|i: int|
            0 <= i < frames@.len() ==> is_reference(frames@, i, #[trigger] out@[i]),
{
    let c: Vec<Bits> = contour_of(frames);
    let mut out: Vec<Option<Bits>> = Vec::with_capacity(frames.len());
    let mut i: usize = 0;
    while i < frames.len()
        invariant
            i <= frames@.len(),
            c@ == contour(frames@),
            out@.len() == i,
            forall|j: int| 0 <= j < i ==> is_reference(frames@, j, #[trigger] out@[j]),
        decreases frames@.len() - i,
    {
        let f: PitchFrame = frames[i];
        if f.voiced && !single::le(f.f0, single::ZERO) {
            let v: Vec<Bits> = collect_near(&c, i, NEIGHBOURS, true);
            out.push(median_of(&v, 4));
        } else {
            out.push(None);
        }
        i = i + 1;
    }
    out
}

/// How a frame lies to its reference: the whole octaves between them, what is
/// left over, and the pitch without those octaves.
#[derive(Clone, Copy, PartialEq, Eq, Structural, Debug)]
pub struct Octaves {
    pub rounded: Bits,
    pub rest: Bits,
    pub f0: Bits,
}

/// One or two whole octaves off, and near enough to be no other interval.
pub open spec fn off_by_octaves(o: Octaves) -> bool {
    &&& single::value(o.rounded) != 0
    &&& single::at_most(single::low(o.rounded) as Bits, MAX_OCTAVES)
    &&& single::less(single::low(o.rest) as Bits, OCTAVE_TOLERANCE)
}

/// Is the frame whole octaves off?
pub fn is_octave_error(o: Octaves) -> (r: bool)
    ensures
        r == off_by_octaves(o),
{
    let size: Bits = single::abs(o.rounded);
    let rest: Bits = single::abs(o.rest);
    let some: bool = single::lt(o.rounded, single::ZERO) || single::lt(single::ZERO, o.rounded);
    proof {
        single::zero_is_zero();
    }
    some && single::le(size, MAX_OCTAVES) && single::lt(rest, OCTAVE_TOLERANCE)
}

/// The number of frames before `n` that are brought back.
pub open spec fn fixes(found: Seq<Option<Octaves>>, n: int) -> nat
    decreases n,
{
    if n <= 0 {
        0
    } else if found[n - 1] matches Some(o) && off_by_octaves(o) {
        fixes(found, n - 1) + 1
    } else {
        fixes(found, n - 1)
    }
}

/// The frame after it has been brought back, where it lay octaves off.
pub open spec fn brought_back(f: PitchFrame, o: Option<Octaves>) -> PitchFrame {
    match o {
        Some(x) => if off_by_octaves(x) {
            PitchFrame { f0: x.f0, ..f }
        } else {
            f
        },
        None => f,
    }
}

/// Brings the frames back that lie octaves off; `found` says how each lies to
/// its reference. Gives the number of frames brought back.
pub fn fix_octaves(frames: &mut Vec<PitchFrame>, found: &Vec<Option<Octaves>>) -> (fixed: usize)
    requires
        old(frames)@.len() == found@.len(),
    ensures
        final(frames)@ == Seq::new(
            old(frames)@.len(),
            |i: int| brought_back(old(frames)@[i], found@[i]),
        ),
        fixed == fixes(found@, found@.len() as int),
{
    let ghost before = frames@;
    let mut fixed: usize = 0;
    let mut i: usize = 0;
    while i < frames.len()
        invariant
            i <= frames@.len(),
            frames@.len() == found@.len(),
            frames@.len() == before.len(),
            fixed <= i,
            fixed == fixes(found@, i as int),
            forall|j: int| 0 <= j < i ==> #[trigger] frames@[j] == brought_back(before[j], found@[j]),
            forall|j: int| i <= j < frames@.len() ==> #[trigger] frames@[j] == before[j],
        decreases frames@.len() - i,
    {
        match found[i] {
            Some(o) => {
                if is_octave_error(o) {
                    let f: PitchFrame = frames[i];
                    frames.set(
                        i,
                        PitchFrame {
                            f0: o.f0,
                            voiced: f.voiced,
                            aperiodicity: f.aperiodicity,
                            rms: f.rms,
                        },
                    );
                    fixed = fixed + 1;
                }
            },
            None => {},
        }
        i = i + 1;
    }
    assert(frames@ =~= Seq::new(before.len(), |i: int| brought_back(before[i], found@[i])));
    fixed
}

/// `after` is frame `i` of `frames` after the median filter: a voiced frame takes
/// the median of the five round it, where three of them carry a pitch. Whether a
/// frame is voiced stays.
pub open spec fn filtered(frames: Seq<PitchFrame>, i: int, after: PitchFrame) -> bool {
    let v = near(contour(frames), i, MEDIAN_WIDTH as int / 2, false);
    if !frames[i].voiced || v.len() < 3 {
        after == frames[i]
    } else {
        after == (PitchFrame { f0: after.f0, ..frames[i] }) && sorting::is_nth(
            v,
            v.len() as int / 2,
            after.f0,
        )
    }
}

/// Takes single spikes out of the track.
pub fn median_filter(frames: &mut Vec<PitchFrame>)
    ensures
        final(frames)@.len() == old(frames)@.len(),
        forall|i: int|
            0 <= i < old(frames)@.len() ==> filtered(old(frames)@, i, #[trigger] final(frames)@[i]),
{
    let ghost before = frames@;
    let c: Vec<Bits> = contour_of(frames);
    let mut i: usize = 0;
    while i < frames.len()
        invariant
            i <= frames@.len(),
            frames@.len() == before.len(),
            c@ == contour(before),
            forall|j: int| 0 <= j < i ==> filtered(before, j, #[trigger] frames@[j]),
            forall|j: int| i <= j < frames@.len() ==> #[trigger] frames@[j] == before[j],
        decreases frames@.len() - i,
    {
        let f: PitchFrame = frames[i];
        if f.voiced {
            let v: Vec<Bits> = collect_near(&c, i, MEDIAN_WIDTH / 2, false);
            match median_of(&v, 3) {
                Some(m) => {
                    frames.set(
                        i,
                        PitchFrame {
                            f0: m,
                            voiced: f.voiced,
                            aperiodicity: f.aperiodicity,
                            rms: f.rms,
                        },
                    );
                },
                None => {},
            }
        }
        i = i + 1;
    }
}

proof fn lemma_around_members(c: Seq<Bits>, lo: int, hi: int, skip: int, m: Bits)
    requires
        0 <= lo,
        hi <= c.len(),
        around(c, lo, hi, skip).contains(m),
    ensures
        exists|k: int| lo <= k < hi && k != skip && #[trigger] c[k] == m && positive(m),
    decreases hi - lo,
{
    if hi > lo {
        let before = around(c, lo, hi - 1, skip);
        let all = around(c, lo, hi, skip);
        let j = choose|j: int| 0 <= j < all.len() && all[j] == m;
        if hi - 1 != skip && positive(c[hi - 1]) && j == before.len() {
            assert(c[hi - 1] == m);
        } else {
            assert(before[j] == m);
            lemma_around_members(c, lo, hi - 1, skip, m);
        }
    }
}

/// The median filter invents no pitch: what it gives a frame is the pitch of a
/// voiced frame at most two away.
pub proof fn the_filter_invents_no_pitch(frames: Seq<PitchFrame>, i: int, after: PitchFrame)
    requires
        0 <= i < frames.len(),
        filtered(frames, i, after),
        after != frames[i],
    ensures
        exists|k: int|
            0 <= k < frames.len() && -2 <= k - i <= 2 && sounds(#[trigger] frames[k])
                && frames[k].f0 == after.f0,
{
    let c = contour(frames);
    let v = near(c, i, 2, false);
    sorting::ordering_invents_nothing(v, v.len() as int / 2, after.f0);
    lemma_around_members(c, near_from(i, 2), near_to(i, 2, c.len() as int), -1, after.f0);
    let k = choose|k: int|
        near_from(i, 2) <= k < near_to(i, 2, c.len() as int) && k != -1 && #[trigger] c[k]
            == after.f0 && positive(after.f0);
    single::zero_is_zero();
    assert(frames[k].voiced);
    assert(sounds(frames[k]));
}

/// A run of `false` that could not be longer.
pub open spec fn is_run(flags: Seq<bool>, start: int, end: int) -> bool {
    &&& 0 <= start < end <= flags.len()
    &&& forall|k: int| start <= k < end ==> !#[trigger] flags[k]
    &&& start == 0 || flags[start - 1]
    &&& end == flags.len() || flags[end]
}

/// Run `start..end` is among `runs`.
pub open spec fn listed(runs: Seq<Run>, start: int, end: int) -> bool {
    exists|k: int|
        0 <= k < runs.len() && (#[trigger] runs[k]).start == start && runs[k].end == end
}

/// The runs come one after the other, with something between them.
pub open spec fn apart(runs: Seq<Run>) -> bool {
    forall|j: int, k: int|
        0 <= j < k < runs.len() ==> (#[trigger] runs[j]).end < (#[trigger] runs[k]).start
}

/// All runs of `false`, in order.
pub fn runs_of(flags: &Vec<bool>) -> (runs: Vec<Run>)
    ensures
        apart(runs@),
        forall|k: int|
            0 <= k < runs@.len() ==> is_run(
                flags@,
                (#[trigger] runs@[k]).start as int,
                runs@[k].end as int,
            ),
        forall|s: int, e: int| #[trigger] is_run(flags@, s, e) ==> listed(runs@, s, e),
{
    let total: usize = flags.len();
    let mut runs: Vec<Run> = Vec::new();
    let mut i: usize = 0;
    while i < total
        invariant
            i <= total,
            total == flags@.len(),
            i == 0 || i == total || flags@[i as int] || flags@[i - 1],
            apart(runs@),
            forall|k: int|
                0 <= k < runs@.len() ==> (#[trigger] runs@[k]).end <= i && is_run(
                    flags@,
                    runs@[k].start as int,
                    runs@[k].end as int,
                ),
            forall|s: int, e: int|
                #[trigger] is_run(flags@, s, e) && s < i ==> listed(runs@, s, e),
        decreases total - i,
    {
        if flags[i] {
            i = i + 1;
        } else {
            let start: usize = i;
            while i < total && !flags[i]
                invariant
                    start <= i <= total,
                    total == flags@.len(),
                    forall|k: int| start <= k < i ==> !#[trigger] flags@[k],
                decreases total - i,
            {
                i = i + 1;
            }
            let ghost before = runs@;
            runs.push(Run { start, end: i });
            proof {
                assert forall|j: int| 0 <= j < before.len() implies (#[trigger] before[j]).end
                    < start by {
                    assert(before[j] == runs@[j]);
                    if before[j].end == start {
                        assert(is_run(flags@, before[j].start as int, before[j].end as int));
                        assert(flags@[start as int]);
                    }
                }
                assert(apart(runs@)) by {
                    assert forall|j: int, k: int| 0 <= j < k < runs@.len() implies (
                    #[trigger] runs@[j]).end < (#[trigger] runs@[k]).start by {
                        assert(before[j] == runs@[j]);
                        if k < before.len() {
                            assert(before[k] == runs@[k]);
                        }
                    }
                }
                assert(is_run(flags@, start as int, i as int));
                assert forall|s: int, e: int| #[trigger] is_run(flags@, s, e) && s < i implies listed(
                    runs@,
                    s,
                    e,
                ) by {
                    if s < start {
                        assert(listed(before, s, e));
                        let k = choose|k: int|
                            0 <= k < before.len() && (#[trigger] before[k]).start == s
                                && before[k].end == e;
                        assert(runs@[k] == before[k]);
                    } else {
                        if s > start {
                            assert(!flags@[s - 1]);
                        }
                        if e < i {
                            assert(!flags@[e]);
                        }
                        if e > i {
                            assert(!flags@[i as int]);
                        }
                        assert(runs@[before.len() as int] == (Run { start, end: i }));
                    }
                }
            }
        }
    }
    runs
}

/// Whether each frame is voiced.
pub open spec fn voicing(frames: Seq<PitchFrame>) -> Seq<bool> {
    Seq::new(frames.len(), |i: int| frames[i].voiced)
}

/// A dropout that is closed: a short run of unvoiced frames between two frames
/// whose pitches are not zero or less. What lies at either end of the recording is no dropout.
pub open spec fn is_gap(frames: Seq<PitchFrame>, start: int, end: int) -> bool {
    &&& is_run(voicing(frames), start, end)
    &&& 0 < start
    &&& end < frames.len()
    &&& end - start <= MAX_GAP
    &&& !single::at_most(frames[start - 1].f0, single::ZERO)
    &&& !single::at_most(frames[end].f0, single::ZERO)
}

/// The dropouts that are closed, in order.
pub fn gaps_in(frames: &Vec<PitchFrame>) -> (gaps: Vec<Run>)
    ensures
        apart(gaps@),
        forall|k: int|
            0 <= k < gaps@.len() ==> is_gap(
                frames@,
                (#[trigger] gaps@[k]).start as int,
                gaps@[k].end as int,
            ),
        forall|s: int, e: int| #[trigger] is_gap(frames@, s, e) ==> listed(gaps@, s, e),
{
    let mut flags: Vec<bool> = Vec::with_capacity(frames.len());
    let mut i: usize = 0;
    while i < frames.len()
        invariant
            i <= frames@.len(),
            flags@.len() == i,
            forall|j: int| 0 <= j < i ==> #[trigger] flags@[j] == frames@[j].voiced,
        decreases frames@.len() - i,
    {
        flags.push(frames[i].voiced);
        i = i + 1;
    }
    assert(flags@ =~= voicing(frames@));
    let runs: Vec<Run> = runs_of(&flags);
    let mut gaps: Vec<Run> = Vec::new();
    let mut k: usize = 0;
    while k < runs.len()
        invariant
            k <= runs@.len(),
            apart(runs@),
            forall|j: int|
                0 <= j < runs@.len() ==> is_run(
                    voicing(frames@),
                    (#[trigger] runs@[j]).start as int,
                    runs@[j].end as int,
                ),
            apart(gaps@),
            forall|j: int, m: int|
                0 <= j < gaps@.len() && k <= m < runs@.len() ==> (#[trigger] gaps@[j]).end < (
                #[trigger] runs@[m]).start,
            forall|j: int|
                0 <= j < gaps@.len() ==> is_gap(
                    frames@,
                    (#[trigger] gaps@[j]).start as int,
                    gaps@[j].end as int,
                ),
            forall|j: int|
                0 <= j < k && is_gap(
                    frames@,
                    (#[trigger] runs@[j]).start as int,
                    runs@[j].end as int,
                ) ==> listed(gaps@, runs@[j].start as int, runs@[j].end as int),
        decreases runs@.len() - k,
    {
        let r: Run = runs[k];
        let ghost before = gaps@;
        assert(is_run(voicing(frames@), r.start as int, r.end as int));
        if 0 < r.start && r.end < frames.len() && r.end - r.start <= MAX_GAP && !single::le(
            frames[r.start - 1].f0,
            single::ZERO,
        ) && !single::le(frames[r.end].f0, single::ZERO) {
            gaps.push(r);
            assert(gaps@[before.len() as int] == r);
            assert(listed(gaps@, r.start as int, r.end as int));
            proof {
                assert forall|s: int, e: int| #[trigger] listed(before, s, e) implies listed(
                    gaps@,
                    s,
                    e,
                ) by {
                    let j = choose|j: int|
                        0 <= j < before.len() && (#[trigger] before[j]).start == s && before[j].end
                            == e;
                    assert(gaps@[j] == before[j]);
                }
                assert forall|j: int, m: int| 0 <= j < m < gaps@.len() implies (
                #[trigger] gaps@[j]).end < (#[trigger] gaps@[m]).start by {
                    assert(gaps@[j] == before[j]);
                    if m < before.len() {
                        assert(gaps@[m] == before[m]);
                    } else {
                        assert(gaps@[m] == runs@[k as int]);
                    }
                }
            }
        }
        k = k + 1;
    }
    proof {
        assert forall|s: int, e: int| #[trigger] is_gap(frames@, s, e) implies listed(
            gaps@,
            s,
            e,
        ) by {
            assert(listed(runs@, s, e));
            let j = choose|j: int|
                0 <= j < runs@.len() && (#[trigger] runs@[j]).start == s && runs@[j].end == e;
            assert(runs@[j].start == s);
        }
    }
    gaps
}

/// The runs lie inside `len` places.
pub open spec fn inside(runs: Seq<Run>, len: int) -> bool {
    forall|k: int|
        0 <= k < runs.len() ==> (#[trigger] runs[k]).start < runs[k].end && runs[k].end <= len
}

/// The number of frames in the first `n` runs.
pub open spec fn frames_in(runs: Seq<Run>, n: int) -> int
    decreases n,
{
    if n <= 0 {
        0
    } else {
        frames_in(runs, n - 1) + (runs[n - 1].end - runs[n - 1].start)
    }
}

/// There is a pitch for each frame of each run.
pub open spec fn fitting(gaps: Seq<Run>, values: Seq<Vec<Bits>>) -> bool {
    values.len() == gaps.len() && forall|k: int|
        0 <= k < gaps.len() ==> (#[trigger] values[k])@.len() == gaps[k].end - gaps[k].start
}

/// `after` is `before` with the runs closed: their frames are voiced, with the
/// pitches of `values`; all others are as they were.
pub open spec fn closed_with(
    before: Seq<PitchFrame>,
    after: Seq<PitchFrame>,
    gaps: Seq<Run>,
    values: Seq<Vec<Bits>>,
) -> bool {
    &&& after.len() == before.len()
    &&& forall|k: int, i: int|
        0 <= k < gaps.len() && (#[trigger] gaps[k]).start <= i < gaps[k].end ==> (
        #[trigger] after[i]) == (PitchFrame {
            f0: values[k]@[i - gaps[k].start],
            voiced: true,
            ..before[i]
        })
    &&& forall|i: int|
        0 <= i < before.len() && (forall|k: int|
            0 <= k < gaps.len() ==> !((#[trigger] gaps[k]).start <= i < gaps[k].end))
            ==> #[trigger] after[i] == before[i]
}

/// Closes dropouts: `values` holds the pitches that lead over each of them. Gives
/// the number of frames that were filled.
pub fn fill_gaps(
    frames: &mut Vec<PitchFrame>,
    gaps: &Vec<Run>,
    values: &Vec<Vec<Bits>>,
) -> (filled: usize)
    requires
        apart(gaps@),
        inside(gaps@, old(frames)@.len() as int),
        fitting(gaps@, values@),
    ensures
        filled == frames_in(gaps@, gaps@.len() as int),
        closed_with(old(frames)@, final(frames)@, gaps@, values@),
{
    let ghost before = frames@;
    let total: usize = frames.len();
    let mut filled: usize = 0;
    let mut g: usize = 0;
    while g < gaps.len()
        invariant
            g <= gaps@.len(),
            frames@.len() == total,
            before.len() == total,
            apart(gaps@),
            inside(gaps@, total as int),
            fitting(gaps@, values@),
            filled == frames_in(gaps@, g as int),
            g > 0 ==> filled <= gaps@[g - 1].end,
            g == 0 ==> filled == 0,
            forall|k: int, i: int|
                0 <= k < g && (#[trigger] gaps@[k]).start <= i < gaps@[k].end ==> (
                #[trigger] frames@[i]) == (PitchFrame {
                    f0: values@[k]@[i - gaps@[k].start],
                    voiced: true,
                    ..before[i]
                }),
            forall|i: int|
                0 <= i < total && (forall|k: int|
                    0 <= k < g ==> !((#[trigger] gaps@[k]).start <= i < gaps@[k].end))
                    ==> #[trigger] frames@[i] == before[i],
        decreases gaps@.len() - g,
    {
        let r: Run = gaps[g];
        assert(gaps@[g as int] == r);
        assert(values@[g as int]@.len() == r.end - r.start);
        if g > 0 {
            assert(gaps@[g - 1].end < r.start);
        }
        let ghost start_frames = frames@;
        let mut i: usize = r.start;
        while i < r.end
            invariant
                g < gaps@.len(),
                gaps@[g as int] == r,
                g < values@.len(),
                values@[g as int]@.len() == r.end - r.start,
                r.start <= i <= r.end <= total,
                frames@.len() == total,
                start_frames.len() == total,
                forall|j: int|
                    r.start <= j < i ==> #[trigger] frames@[j] == (PitchFrame {
                        f0: values@[g as int]@[j - r.start],
                        voiced: true,
                        ..start_frames[j]
                    }),
                forall|j: int|
                    0 <= j < total && !(r.start <= j < i) ==> #[trigger] frames@[j]
                        == start_frames[j],
            decreases r.end - i,
        {
            let f: PitchFrame = frames[i];
            frames.set(
                i,
                PitchFrame {
                    f0: values[g][i - r.start],
                    voiced: true,
                    aperiodicity: f.aperiodicity,
                    rms: f.rms,
                },
            );
            i = i + 1;
        }
        proof {
            assert forall|j: int| r.start <= j < r.end implies start_frames[j] == #[trigger] before[j]
                by {
                assert forall|k: int| 0 <= k < g implies !((#[trigger] gaps@[k]).start <= j
                    < gaps@[k].end) by {
                    assert(gaps@[k].end < gaps@[g as int].start);
                }
                assert(start_frames[j] == before[j]);
            }
            assert forall|k: int, i: int|
                0 <= k < g + 1 && (#[trigger] gaps@[k]).start <= i < gaps@[k].end implies (
            #[trigger] frames@[i]) == (PitchFrame {
                f0: values@[k]@[i - gaps@[k].start],
                voiced: true,
                ..before[i]
            }) by {
                if k < g {
                    assert(gaps@[k].end < gaps@[g as int].start);
                    assert(frames@[i] == start_frames[i]);
                } else {
                    assert(start_frames[i] == before[i]);
                }
            }
            assert forall|i: int|
                0 <= i < total && (forall|k: int|
                    0 <= k < g + 1 ==> !((#[trigger] gaps@[k]).start <= i < gaps@[k].end)) implies
                #[trigger] frames@[i] == before[i] by {
                assert(!(gaps@[g as int].start <= i < gaps@[g as int].end));
                assert(frames@[i] == start_frames[i]);
            }
        }
        filled = filled + (r.end - r.start);
        g = g + 1;
    }
    filled
}

proof fn lemma_one_more_frame(s: Seq<PitchFrame>, n: int)
    requires
        0 <= n < s.len(),
    ensures
        voiced_f0s(s.take(n + 1)).len() == voiced_f0s(s.take(n)).len() + (if s[n].voiced {
            1nat
        } else {
            0nat
        }),
{
    assert(s.take(n + 1).drop_last() =~= s.take(n));
    assert(s.take(n + 1).last() == s[n]);
}

/// Over a stretch on which two tracks agree about voicing, the difference of
/// their counts stays.
proof fn lemma_same_voicing(a: Seq<PitchFrame>, b: Seq<PitchFrame>, from: int, to: int)
    requires
        a.len() == b.len(),
        0 <= from <= to <= a.len(),
        forall|i: int| from <= i < to ==> (#[trigger] a[i]).voiced == b[i].voiced,
    ensures
        voiced_f0s(b.take(to)).len() - voiced_f0s(a.take(to)).len() == voiced_f0s(
            b.take(from),
        ).len() - voiced_f0s(a.take(from)).len(),
    decreases to - from,
{
    if from < to {
        lemma_same_voicing(a, b, from, to - 1);
        lemma_one_more_frame(a, to - 1);
        lemma_one_more_frame(b, to - 1);
        assert(a[to - 1].voiced == b[to - 1].voiced);
    }
}

/// Over a stretch that is unvoiced in one track and voiced in the other, their
/// counts part by its length.
proof fn lemma_closed_stretch(a: Seq<PitchFrame>, b: Seq<PitchFrame>, from: int, to: int)
    requires
        a.len() == b.len(),
        0 <= from <= to <= a.len(),
        forall|i: int| from <= i < to ==> !(#[trigger] a[i]).voiced && b[i].voiced,
    ensures
        voiced_f0s(b.take(to)).len() - voiced_f0s(a.take(to)).len() == voiced_f0s(
            b.take(from),
        ).len() - voiced_f0s(a.take(from)).len() + (to - from),
    decreases to - from,
{
    if from < to {
        lemma_closed_stretch(a, b, from, to - 1);
        lemma_one_more_frame(a, to - 1);
        lemma_one_more_frame(b, to - 1);
        assert(!a[to - 1].voiced && b[to - 1].voiced);
    }
}

/// Where the first `n` runs end.
spec fn end_of(gaps: Seq<Run>, n: int) -> int {
    if n <= 0 {
        0
    } else {
        gaps[n - 1].end as int
    }
}

proof fn lemma_growth(
    before: Seq<PitchFrame>,
    after: Seq<PitchFrame>,
    gaps: Seq<Run>,
    values: Seq<Vec<Bits>>,
    n: int,
)
    requires
        0 <= n <= gaps.len(),
        apart(gaps),
        forall|k: int|
            0 <= k < gaps.len() ==> is_gap(
                before,
                (#[trigger] gaps[k]).start as int,
                gaps[k].end as int,
            ),
        closed_with(before, after, gaps, values),
    ensures
        voiced_f0s(after.take(end_of(gaps, n))).len() == voiced_f0s(
            before.take(end_of(gaps, n)),
        ).len() + frames_in(gaps, n),
    decreases n,
{
    if n == 0 {
        assert(after.take(0) =~= before.take(0));
    } else {
        lemma_growth(before, after, gaps, values, n - 1);
        let from = end_of(gaps, n - 1);
        let g = gaps[n - 1];
        assert(is_gap(before, g.start as int, g.end as int));
        if n > 1 {
            assert(gaps[n - 2].end < gaps[n - 1].start);
        }
        assert forall|i: int| from <= i < g.start implies (#[trigger] before[i]).voiced
            == after[i].voiced by {
            assert forall|k: int| 0 <= k < gaps.len() implies !((#[trigger] gaps[k]).start <= i
                < gaps[k].end) by {
                if k < n - 1 {
                    if k < n - 2 {
                        assert(gaps[k].end < gaps[n - 2].start);
                        assert(is_gap(before, gaps[n - 2].start as int, gaps[n - 2].end as int));
                    }
                } else if k > n - 1 {
                    assert(gaps[n - 1].end < gaps[k].start);
                }
            }
            assert(after[i] == before[i]);
        }
        lemma_same_voicing(before, after, from, g.start as int);
        assert forall|i: int| g.start <= i < g.end implies !(#[trigger] before[i]).voiced
            && after[i].voiced by {
            assert(gaps[n - 1].start <= i < gaps[n - 1].end);
            assert(voicing(before)[i] == before[i].voiced);
        }
        lemma_closed_stretch(before, after, g.start as int, g.end as int);
    }
}

proof fn lemma_fixes_among_voiced(raw: Seq<PitchFrame>, found: Seq<Option<Octaves>>, n: int)
    requires
        found.len() == raw.len(),
        0 <= n <= raw.len(),
        forall|i: int| 0 <= i < raw.len() && (#[trigger] found[i]) is Some ==> raw[i].voiced,
    ensures
        fixes(found, n) <= voiced_f0s(raw.take(n)).len(),
    decreases n,
{
    if n > 0 {
        lemma_fixes_among_voiced(raw, found, n - 1);
        lemma_one_more_frame(raw, n - 1);
    }
}

/// Putting a track right adds voice and takes none away: from the track as it was
/// heard, over the octave fixes and the median filter, to the closed dropouts,
/// what was voiced stays voiced, a frame that stays unvoiced is not touched, and
/// how periodic and how loud a frame was is kept. The frames that were filled are
/// just those by which the voiced ones have grown, and no more frames were brought
/// back than were voiced. Where an unvoiced frame was heard with a pitch of zero, as
/// [`PitchFrame::heard`] makes it, it has none in the end either.
pub proof fn putting_a_track_right_keeps_what_was_heard(
    raw: Seq<PitchFrame>,
    references: Seq<Option<Bits>>,
    found: Seq<Option<Octaves>>,
    fixed: Seq<PitchFrame>,
    smooth: Seq<PitchFrame>,
    gaps: Seq<Run>,
    values: Seq<Vec<Bits>>,
    out: Seq<PitchFrame>,
)
    requires
        references.len() == raw.len(),
        forall|i: int| 0 <= i < raw.len() ==> is_reference(raw, i, #[trigger] references[i]),
        found.len() == raw.len(),
        forall|i: int|
            0 <= i < raw.len() ==> ((#[trigger] found[i]) is Some ==> references[i] is Some),
        fixed == Seq::new(raw.len(), |i: int| brought_back(raw[i], found[i])),
        smooth.len() == raw.len(),
        forall|i: int| 0 <= i < raw.len() ==> filtered(fixed, i, #[trigger] smooth[i]),
        apart(gaps),
        forall|k: int|
            0 <= k < gaps.len() ==> is_gap(
                smooth,
                (#[trigger] gaps[k]).start as int,
                gaps[k].end as int,
            ),
        closed_with(smooth, out, gaps, values),
    ensures
        out.len() == raw.len(),
        forall|i: int| 0 <= i < raw.len() && raw[i].voiced ==> (#[trigger] out[i]).voiced,
        forall|i: int| 0 <= i < raw.len() && !(#[trigger] out[i]).voiced ==> out[i] == raw[i],
        (forall|i: int|
            0 <= i < raw.len() && !(#[trigger] raw[i]).voiced ==> raw[i].f0 == single::ZERO) ==> (
        forall|i: int|
            0 <= i < raw.len() && !(#[trigger] out[i]).voiced ==> out[i].f0 == single::ZERO),
        forall|i: int|
            0 <= i < raw.len() ==> (#[trigger] out[i]).aperiodicity == raw[i].aperiodicity
                && out[i].rms == raw[i].rms,
        voiced_f0s(out).len() == voiced_f0s(raw).len() + frames_in(gaps, gaps.len() as int),
        fixes(found, raw.len() as int) <= voiced_f0s(raw).len(),
{
    assert forall|i: int| 0 <= i < raw.len() implies {
        &&& (#[trigger] smooth[i]).voiced == raw[i].voiced
        &&& smooth[i].aperiodicity == raw[i].aperiodicity
        &&& smooth[i].rms == raw[i].rms
        &&& !raw[i].voiced ==> smooth[i] == raw[i]
    } by {
        assert(filtered(fixed, i, smooth[i]));
        assert(fixed[i] == brought_back(raw[i], found[i]));
        assert(is_reference(raw, i, references[i]));
        assert(found[i] is Some ==> references[i] is Some);
    }
    assert forall|i: int| 0 <= i < raw.len() implies {
        &&& (#[trigger] out[i]).aperiodicity == raw[i].aperiodicity
        &&& out[i].rms == raw[i].rms
        &&& raw[i].voiced ==> out[i].voiced
        &&& !out[i].voiced ==> out[i] == raw[i]
    } by {
        assert(smooth[i].voiced == raw[i].voiced);
        if exists|k: int|
            0 <= k < gaps.len() && (#[trigger] gaps[k]).start <= i < gaps[k].end {
            let k = choose|k: int|
                0 <= k < gaps.len() && (#[trigger] gaps[k]).start <= i < gaps[k].end;
            assert(gaps[k].start <= i < gaps[k].end);
            assert(out[i].voiced);
        } else {
            assert(out[i] == smooth[i]);
        }
    }
    let n = gaps.len() as int;
    lemma_growth(smooth, out, gaps, values, n);
    let last = end_of(gaps, n);
    if n > 0 {
        assert(is_gap(smooth, gaps[n - 1].start as int, gaps[n - 1].end as int));
    }
    assert forall|i: int| last <= i < raw.len() implies (#[trigger] smooth[i]).voiced
        == out[i].voiced by {
        assert forall|k: int| 0 <= k < gaps.len() implies !((#[trigger] gaps[k]).start <= i
            < gaps[k].end) by {
            if k < n - 1 {
                assert(gaps[k].end < gaps[n - 1].start);
            }
        }
        assert(out[i] == smooth[i]);
    }
    lemma_same_voicing(smooth, out, last, raw.len() as int);
    lemma_same_voicing(raw, smooth, 0, raw.len() as int);
    assert(smooth.take(0) =~= raw.take(0));
    assert(out.take(raw.len() as int) =~= out);
    assert(smooth.take(raw.len() as int) =~= smooth);
    assert(raw.take(raw.len() as int) =~= raw);
    assert forall|i: int| 0 <= i < raw.len() && (#[trigger] found[i]) is Some implies raw[i].voiced by {
        assert(is_reference(raw, i, references[i]));
    }
    lemma_fixes_among_voiced(raw, found, raw.len() as int);
}

/// Whether each frame carries a pitch.
pub fn sounding(frames: &Vec<PitchFrame>) -> (flags: Vec<bool>)
    ensures
        flags@ == Seq::new(frames@.len(), |i: int| sounds(frames@[i])),
{
    let mut flags: Vec<bool> = Vec::with_capacity(frames.len());
    let mut i: usize = 0;
    while i < frames.len()
        invariant
            i <= frames@.len(),
            flags@.len() == i,
            forall|j: int| 0 <= j < i ==> #[trigger] flags@[j] == sounds(frames@[j]),
        decreases frames@.len() - i,
    {
        let f: PitchFrame = frames[i];
        flags.push(f.voiced && single::lt(single::ZERO, f.f0));
        i = i + 1;
    }
    assert(flags@ =~= Seq::new(frames@.len(), |i: int| sounds(frames@[i])));
    flags
}

/// The lowest pitch of the frames, the largest number where none carries one.
pub open spec fn lowest(frames: Seq<PitchFrame>) -> Bits
    decreases frames.len(),
{
    if frames.len() == 0 {
        LARGEST
    } else if sounds(frames.last()) {
        single::smaller(lowest(frames.drop_last()), frames.last().f0)
    } else {
        lowest(frames.drop_last())
    }
}

/// The lowest pitch of the frames.
pub fn lowest_pitch(frames: &Vec<PitchFrame>) -> (b: Bits)
    ensures
        b == lowest(frames@),
{
    let mut b: Bits = LARGEST;
    let mut i: usize = 0;
    assert(frames@.take(0) =~= Seq::<PitchFrame>::empty());
    while i < frames.len()
        invariant
            i <= frames@.len(),
            b == lowest(frames@.take(i as int)),
        decreases frames@.len() - i,
    {
        assert(frames@.take(i + 1).drop_last() =~= frames@.take(i as int));
        let f: PitchFrame = frames[i];
        if f.voiced && single::lt(single::ZERO, f.f0) {
            b = single::min(b, f.f0);
        }
        i = i + 1;
    }
    assert(frames@.take(i as int) =~= frames@);
    b
}

/// No frame that carries a pitch lies below the lowest.
pub proof fn no_pitch_lies_below_the_lowest(frames: Seq<PitchFrame>, i: int)
    requires
        0 <= i < frames.len(),
        sounds(frames[i]),
    ensures
        single::at_most(lowest(frames), frames[i].f0),
    decreases frames.len(),
{
    lemma_lowest_is_a_number(frames);
    lemma_lowest_is_a_number(frames.drop_last());
    if i < frames.len() - 1 {
        assert(frames.drop_last()[i] == frames[i]);
        no_pitch_lies_below_the_lowest(frames.drop_last(), i);
    }
}

proof fn lemma_lowest_is_a_number(frames: Seq<PitchFrame>)
    ensures
        !single::nan(lowest(frames)),
    decreases frames.len(),
{
    if frames.len() > 0 {
        lemma_lowest_is_a_number(frames.drop_last());
    }
}

/// Sets the synthesis up for a frame. `period` is the period of its pitch in
/// samples, `ratio` and `formant` the shifts; a frame without a pitch goes
/// through as it is.
pub fn steer(p: &mut Psola, f: PitchFrame, period: usize, ratio: Bits, formant: Bits)
    requires
        old(p).wf(),
        sounds(f) ==> old(p).shortest() <= old(p).longest(),
    ensures
        final(p).wf(),
        final(p).unmoved_from(old(p)),
        final(p).is_voiced() == sounds(f),
        sounds(f) ==> final(p).period_now() == psola::held(
            period as int,
            old(p).shortest(),
            old(p).longest(),
        ),
        !sounds(f) ==> final(p).period_now() == old(p).period_now(),
        sounds(f) ==> final(p).ratio_bits() == single::clamped(ratio, psola::HALF, psola::TWO),
        sounds(f) ==> final(p).formant_bits() == single::clamped(formant, psola::HALF, psola::TWO),
        !sounds(f) ==> final(p).ratio_bits() == single::ONE && final(p).formant_bits()
            == single::ONE,
        old(p).is_voiced() && !sounds(f) ==> final(p).marks().len() == 0,
        !(old(p).is_voiced() && !sounds(f)) ==> final(p).marks() == old(p).marks(),
{
    if f.voiced && single::lt(single::ZERO, f.f0) {
        p.set_pitch(f.f0, period, true);
        p.set_ratio(ratio);
        p.set_formant(formant);
    } else {
        p.set_pitch(single::ZERO, 0, false);
        p.set_ratio(single::ONE);
        p.set_formant(single::ONE);
        proof {
            single::non_negative_patterns_order_as_integers(single::ONE, psola::HALF);
            single::non_negative_patterns_order_as_integers(psola::TWO, single::ONE);
        }
    }
}

/// The samples of frame `i`, where there are any.
pub fn frame_span(i: usize, hop: usize, total: usize) -> (r: Option<(usize, usize)>)
    requires
        i * hop + hop <= usize::MAX,
    ensures
        r == (if i * hop < total && hop > 0 {
            Some(
                (
                    (i * hop) as usize,
                    (if i * hop + hop < total {
                        i * hop + hop
                    } else {
                        total as int
                    }) as usize,
                ),
            )
        } else {
            None
        }),
        r matches Some((a, b)) ==> a < b <= total && b - a <= hop && (b - a == hop || b == total),
        r is None ==> hop == 0 || total <= i * hop,
{
    let start: usize = i * hop;
    let whole: usize = start + hop;
    let end: usize = if whole < total {
        whole
    } else {
        total
    };
    if start >= end {
        None
    } else {
        Some((start, end))
    }
}

/// A signal with a fixed delay undone: everything moves forward by `delay`, and `zero`
/// comes in behind. What is not longer than the delay stays as it is.
pub open spec fn undone<T>(out: Seq<T>, delay: int, zero: T) -> Seq<T> {
    if 0 < delay < out.len() {
        Seq::new(
            out.len(),
            |i: int|
                if i + delay < out.len() {
                    out[i + delay]
                } else {
                    zero
                },
        )
    } else {
        out
    }
}

/// Undoes a fixed delay.
pub fn undo_delay<T: Copy>(out: &mut Vec<T>, delay: usize, zero: T)
    ensures
        final(out)@ == undone(old(out)@, delay as int, zero),
{
    let total: usize = out.len();
    if delay == 0 || delay >= total {
        return ;
    }
    let ghost before = out@;
    let mut i: usize = 0;
    while i < total
        invariant
            i <= total,
            0 < delay < total,
            out@.len() == total,
            before.len() == total,
            forall|j: int|
                0 <= j < i ==> #[trigger] out@[j] == (if j + delay < total {
                    before[j + delay]
                } else {
                    zero
                }),
            forall|j: int| i <= j < total ==> #[trigger] out@[j] == before[j],
        decreases total - i,
    {
        let x: T = if delay < total - i {
            out[i + delay]
        } else {
            zero
        };
        out.set(i, x);
        i = i + 1;
    }
    assert(out@ =~= undone(before, delay as int, zero));
}

/// What the synthesis gives for a recording without voice that goes through frame by
/// frame: `out[t]` is what has been added at place `t`, which is just one sample where
/// that sample comes out unchanged, and nothing, that is zero, where none has.
pub open spec fn gone_through(
    samples: Seq<Bits>,
    passes: Seq<psola::Pass>,
    len: nat,
    out: Seq<Seq<Bits>>,
) -> bool {
    &&& out.len() == samples.len()
    &&& passes.len() * HOP <= samples.len()
    &&& forall|k: int|
        0 <= k < passes.len() ==> (#[trigger] passes[k]).input == samples.subrange(
            k * HOP,
            k * HOP + HOP,
        )
    &&& forall|k: int, j: int|
        0 <= k < passes.len() && 0 <= j < HOP ==> out[k * HOP + j] == #[trigger] psola::comes_out(
            psola::out_ring(passes.take(k), len),
            passes[k],
            j,
        )
}

proof fn lemma_input_so_far(samples: Seq<Bits>, passes: Seq<psola::Pass>, k: int)
    requires
        0 <= k <= passes.len(),
        passes.len() * HOP <= samples.len(),
        forall|i: int|
            0 <= i < passes.len() ==> (#[trigger] passes[i]).input == samples.subrange(
                i * HOP,
                i * HOP + HOP,
            ),
    ensures
        psola::all_input(passes.take(k)) == samples.take(k * HOP),
    decreases k,
{
    let so_far = passes.take(k);
    if k > 0 {
        lemma_input_so_far(samples, passes, k - 1);
        assert(so_far.drop_last() =~= passes.take(k - 1));
        assert(so_far.last() == passes[k - 1]);
        assert(samples.take((k - 1) * HOP) + samples.subrange(
            (k - 1) * HOP,
            (k - 1) * HOP + HOP,
        ) =~= samples.take(k * HOP));
    } else {
        assert(psola::all_input(so_far) =~= samples.take(0));
    }
}

proof fn lemma_shorter_run(passes: Seq<psola::Pass>, start: Psola, len: nat, k: int)
    requires
        psola::unvoiced_run(passes, start, len),
        0 <= k <= passes.len(),
    ensures
        psola::unvoiced_run(passes.take(k), start, len),
{
    let front = passes.take(k);
    assert forall|i: int| 0 <= i < k implies #[trigger] psola::goes_through(front[i]) by {
        assert(psola::goes_through(passes[i]));
    }
    assert forall|i: int| 0 <= i < k implies (#[trigger] front[i]).before.unmoved_from(
        &psola::before_pass(front, start, i),
    ) by {
        assert(passes[i].before.unmoved_from(&psola::before_pass(passes, start, i)));
    }
}

/// A recording without voice comes back as it was, and aligned: with the delay of the
/// synthesis undone, place `i` holds input sample `i`, at every place that the delay
/// line reaches. The first samples, fewer than a frame, pass before reading starts, and
/// silence stands in their place.
pub proof fn a_recording_without_voice_comes_back_aligned(
    samples: Seq<Bits>,
    passes: Seq<psola::Pass>,
    start: Psola,
    len: nat,
    out: Seq<Seq<Bits>>,
    i: int,
)
    requires
        psola::unvoiced_run(passes, start, len),
        gone_through(samples, passes, len, out),
        0 <= i,
        i + 2 * start.longest() < passes.len() * HOP,
    ensures
        ({
            let delay = 2 * start.longest();
            // The first frame that is read begins the delay behind this place or later.
            let first = (delay + HOP - 1) / HOP as int * HOP - delay;
            &&& 0 <= first < HOP
            &&& undone(out, delay, Seq::empty())[i] == (if i >= first {
                seq![samples[i]]
            } else {
                Seq::empty()
            })
        }),
{
    psola::the_longest_period_is_positive(start);
    let delay = 2 * start.longest();
    let t = i + delay;
    let k = t / HOP as int;
    let j = t % HOP as int;
    let run = passes.take(k + 1);
    lemma_shorter_run(passes, start, len, k + 1);
    assert forall|q: int| 0 <= q < run.len() implies (#[trigger] run[q]).input.len()
        <= start.longest() + psola::RING_SLACK / 2 by {
        assert(passes[q].input == samples.subrange(q * HOP, q * HOP + HOP));
    }
    assert forall|q: int| 0 <= q < run.len() implies #[trigger] psola::fits(run[q]) by {
        psola::short_blocks_always_fit(run, start, len, q);
    }
    assert(passes[k].input == samples.subrange(k * HOP, k * HOP + HOP));
    assert(run.last() == passes[k]);
    assert(run.drop_last() =~= passes.take(k));
    lemma_input_so_far(samples, passes, k);
    lemma_input_so_far(samples, passes, k + 1);
    psola::unvoiced_input_comes_out_unchanged(run, start, len, j);
    assert(out[k * HOP + j] == psola::comes_out(
        psola::out_ring(passes.take(k), len),
        passes[k],
        j,
    ));
}

/// The first place that is set.
pub open spec fn first_set(valid: Seq<bool>, i: int) -> bool {
    0 <= i < valid.len() && valid[i] && forall|j: int| 0 <= j < i ==> !#[trigger] valid[j]
}

/// The last place that is set.
pub open spec fn last_set(valid: Seq<bool>, i: int) -> bool {
    0 <= i < valid.len() && valid[i] && forall|j: int|
        i < j < valid.len() ==> !#[trigger] valid[j]
}

/// Holds the outermost valid values out to both ends, and lists the holes
/// between valid values that are left to be bridged. Where nothing is valid,
/// nothing changes.
pub fn hold_edges<T: Copy>(v: &mut Vec<T>, valid: &Vec<bool>) -> (holes: Vec<Run>)
    requires
        old(v)@.len() == valid@.len(),
    ensures
        final(v)@.len() == old(v)@.len(),
        (forall|j: int| 0 <= j < valid@.len() ==> !#[trigger] valid@[j]) ==> final(v)@ == old(v)@
            && holes@.len() == 0,
        forall|a: int, z: int| #[trigger]
            first_set(valid@, a) && #[trigger] last_set(valid@, z) ==> forall|i: int|
                0 <= i < old(v)@.len() ==> #[trigger] final(v)@[i] == (if i < a {
                    old(v)@[a]
                } else if z < i {
                    old(v)@[z]
                } else {
                    old(v)@[i]
                }),
        apart(holes@),
        forall|k: int|
            0 <= k < holes@.len() ==> is_run(
                valid@,
                (#[trigger] holes@[k]).start as int,
                holes@[k].end as int,
            ) && 0 < holes@[k].start && holes@[k].end < valid@.len(),
        forall|s: int, e: int| #[trigger]
            is_run(valid@, s, e) && 0 < s && e < valid@.len() ==> listed(holes@, s, e),
{
    let total: usize = valid.len();
    let ghost before = v@;
    let mut a: usize = 0;
    while a < total && !valid[a]
        invariant
            a <= total,
            total == valid@.len(),
            forall|j: int| 0 <= j < a ==> !#[trigger] valid@[j],
        decreases total - a,
    {
        a = a + 1;
    }
    if a < total {
        let mut z: usize = total - 1;
        while !valid[z]
            invariant
                a <= z < total,
                total == valid@.len(),
                valid@[a as int],
                forall|j: int| z < j < total ==> !#[trigger] valid@[j],
            decreases z,
        {
            z = z - 1;
        }
        let head: T = v[a];
        let tail: T = v[z];
        let mut i: usize = 0;
        while i < total
            invariant
                i <= total,
                a <= z < total,
                v@.len() == total,
                before.len() == total,
                head == before[a as int],
                tail == before[z as int],
                forall|j: int|
                    0 <= j < i ==> #[trigger] v@[j] == (if j < a {
                        before[a as int]
                    } else if z < j {
                        before[z as int]
                    } else {
                        before[j]
                    }),
                forall|j: int| i <= j < total ==> #[trigger] v@[j] == before[j],
            decreases total - i,
        {
            if i < a {
                v.set(i, head);
            } else if z < i {
                v.set(i, tail);
            }
            i = i + 1;
        }
        assert forall|x: int, y: int| #[trigger]
            first_set(valid@, x) && #[trigger] last_set(valid@, y) implies x == a && y == z by {
            if x < a {
                assert(!valid@[x]);
            }
            if x > a {
                assert(!valid@[a as int]);
            }
            if y > z {
                assert(!valid@[y]);
            }
            if y < z {
                assert(!valid@[z as int]);
            }
        }
    }
    let runs: Vec<Run> = runs_of(valid);
    let mut holes: Vec<Run> = Vec::new();
    let mut k: usize = 0;
    while k < runs.len()
        invariant
            k <= runs@.len(),
            total == valid@.len(),
            apart(runs@),
            forall|j: int|
                0 <= j < runs@.len() ==> is_run(
                    valid@,
                    (#[trigger] runs@[j]).start as int,
                    runs@[j].end as int,
                ),
            apart(holes@),
            forall|j: int, m: int|
                0 <= j < holes@.len() && k <= m < runs@.len() ==> (#[trigger] holes@[j]).end < (
                #[trigger] runs@[m]).start,
            forall|j: int|
                0 <= j < holes@.len() ==> is_run(
                    valid@,
                    (#[trigger] holes@[j]).start as int,
                    holes@[j].end as int,
                ) && 0 < holes@[j].start && holes@[j].end < total,
            forall|j: int|
                0 <= j < k && 0 < (#[trigger] runs@[j]).start && runs@[j].end < total ==> listed(
                    holes@,
                    runs@[j].start as int,
                    runs@[j].end as int,
                ),
        decreases runs@.len() - k,
    {
        let r: Run = runs[k];
        let ghost had = holes@;
        assert(is_run(valid@, r.start as int, r.end as int));
        if 0 < r.start && r.end < total {
            holes.push(r);
            proof {
                assert(holes@[had.len() as int] == r);
                assert forall|s: int, e: int| #[trigger] listed(had, s, e) implies listed(
                    holes@,
                    s,
                    e,
                ) by {
                    let j = choose|j: int|
                        0 <= j < had.len() && (#[trigger] had[j]).start == s && had[j].end == e;
                    assert(holes@[j] == had[j]);
                }
                assert forall|j: int, m: int| 0 <= j < m < holes@.len() implies (
                #[trigger] holes@[j]).end < (#[trigger] holes@[m]).start by {
                    assert(holes@[j] == had[j]);
                    if m < had.len() {
                        assert(holes@[m] == had[m]);
                    } else {
                        assert(holes@[m] == runs@[k as int]);
                    }
                }
            }
        }
        k = k + 1;
    }
    proof {
        assert forall|s: int, e: int| #[trigger]
            is_run(valid@, s, e) && 0 < s && e < valid@.len() implies listed(holes@, s, e) by {
            assert(listed(runs@, s, e));
            let j = choose|j: int|
                0 <= j < runs@.len() && (#[trigger] runs@[j]).start == s && runs@[j].end == e;
            assert(runs@[j].start == s);
        }
        if forall|j: int| 0 <= j < valid@.len() ==> !#[trigger] valid@[j] {
            if holes@.len() > 0 {
                let h = holes@[0];
                assert(is_run(valid@, h.start as int, h.end as int));
                assert(valid@[h.start - 1]);
            }
            if a < total {
                assert(valid@[a as int]);
            }
        }
    }
    holes
}

/// Whether a frame lies octaves off does not depend on which way: one that was heard
/// octaves too low is brought back just as one that was heard too high. It depends on the
/// size of the whole octaves, one or two of them, and on how little is left over.
pub proof fn octave_errors_are_the_same_up_and_down(o: Octaves, turned: Octaves)
    requires
        o.rounded < 0x8000_0000,
        turned.rounded == o.rounded + 0x8000_0000,
        turned.rest == o.rest || (o.rest < 0x8000_0000 && turned.rest == o.rest + 0x8000_0000),
    ensures
        off_by_octaves(turned) == off_by_octaves(o),
{
    single::zero_is_zero();
    if o.rounded > 0 {
        single::signs_mirror_the_numbers(0, o.rounded);
        if o.rounded < 0x7FFF_FFFF {
            single::signs_mirror_the_numbers(o.rounded, 0x7FFF_FFFF);
        }
    } else {
        single::signs_mirror_the_numbers(0, 1);
    }
}

/// One and two whole octaves with nothing left over are errors, either way; none is not,
/// nor are more than two, nor is anything with 0.12 of an octave or more left over. And
/// what is an error stays one with less left over.
pub proof fn one_or_two_whole_octaves_are_errors(o: Octaves, less_left: Octaves)
    requires
        !single::nan(o.rounded),
        !single::nan(o.rest),
    ensures
        // 1.0, -1.0, 2.0 and -2.0.
        (o.rounded == 0x3F80_0000 || o.rounded == 0xBF80_0000 || o.rounded == 0x4000_0000
            || o.rounded == 0xC000_0000) && single::value(o.rest) == 0 ==> off_by_octaves(o),
        single::value(o.rounded) == 0 ==> !off_by_octaves(o),
        // Beyond 2.0 either way.
        single::value(o.rounded) > single::value(0x4000_0000) || -single::value(o.rounded)
            > single::value(0x4000_0000) ==> !off_by_octaves(o),
        // 0.12 or more left over, either way.
        single::value(o.rest) >= single::value(0x3DF5_C28F) || -single::value(o.rest)
            >= single::value(0x3DF5_C28F) ==> !off_by_octaves(o),
        off_by_octaves(o) && less_left.rounded == o.rounded && single::low(less_left.rest)
            <= single::low(o.rest) ==> off_by_octaves(less_left),
{
    single::zero_is_zero();
    lemma_size(o.rounded);
    lemma_size(o.rest);
    lemma_size(less_left.rest);
    single::non_negative_patterns_order_as_integers(0x3F80_0000, 0x4000_0000);
    single::non_negative_patterns_order_as_integers(0, 0x3F80_0000);
    single::non_negative_patterns_order_as_integers(0, 0x3DF5_C28F);
    lemma_size(0xBF80_0000);
    lemma_size(0xC000_0000);
    single::non_negative_patterns_order_as_integers(
        single::low(less_left.rest) as Bits,
        single::low(o.rest) as Bits,
    );
}

proof fn lemma_size(b: Bits)
    ensures
        0 <= single::low(b) < 0x8000_0000,
        single::value(single::low(b) as Bits) == (if single::value(b) < 0 {
            -single::value(b)
        } else {
            single::value(b)
        }),
        single::value(b) == 0 <==> single::low(b) == 0,
{
    single::zero_is_zero();
    single::non_negative_patterns_order_as_integers(0, single::low(b) as Bits);
    single::non_negative_patterns_order_as_integers(single::low(b) as Bits, 0);
}

/// Bringing frames back changes the pitch of the frames that lie octaves off, to the one
/// without those octaves, and nothing else; and as many are counted as were.
pub proof fn only_octave_errors_are_brought_back(f: PitchFrame, o: Octaves)
    ensures
        brought_back(f, None) == f,
        off_by_octaves(o) ==> brought_back(f, Some(o)).f0 == o.f0,
        !off_by_octaves(o) ==> brought_back(f, Some(o)) == f,
        brought_back(f, Some(o)).voiced == f.voiced,
        brought_back(f, Some(o)).aperiodicity == f.aperiodicity,
        brought_back(f, Some(o)).rms == f.rms,
{
}

proof fn lemma_around_holds(c: Seq<Bits>, lo: int, hi: int, skip: int, k: int)
    requires
        lo <= k < hi,
        k != skip,
        positive(c[k]),
    ensures
        around(c, lo, hi, skip).contains(c[k]),
    decreases hi - lo,
{
    let before = around(c, lo, hi - 1, skip);
    let whole = around(c, lo, hi, skip);
    if k == hi - 1 {
        assert(whole.last() == c[k]);
        assert(whole[whole.len() - 1] == c[k]);
    } else {
        lemma_around_holds(c, lo, hi - 1, skip, k);
        let j = choose|j: int| 0 <= j < before.len() && before[j] == c[k];
        assert(whole[j] == c[k]);
    }
}

/// The pitches near a frame are just those of the voiced frames within reach that have
/// one, and without the frame's own where the others alone are asked for.
pub proof fn the_neighbourhood_is_what_lies_within_reach(
    frames: Seq<PitchFrame>,
    i: int,
    reach: int,
    others: bool,
    pitch: Bits,
)
    requires
        0 <= i < frames.len(),
        0 <= reach,
    ensures
        near(contour(frames), i, reach, others).contains(pitch) <==> exists|k: int|
            0 <= k < frames.len() && vstd::math::abs(k - i) <= reach && (#[trigger] frames[k]).voiced
                && frames[k].f0 == pitch && single::less(single::ZERO, pitch) && (others ==> k != i),
{
    let c = contour(frames);
    let lo = near_from(i, reach);
    let hi = near_to(i, reach, c.len() as int);
    let skip = if others {
        i
    } else {
        -1
    };
    single::zero_is_zero();
    if near(c, i, reach, others).contains(pitch) {
        lemma_around_members(c, lo, hi, skip, pitch);
        let k = choose|k: int|
            lo <= k < hi && k != skip && #[trigger] c[k] == pitch && positive(pitch);
        assert(frames[k].voiced && frames[k].f0 == pitch);
    }
    if exists|k: int|
        0 <= k < frames.len() && vstd::math::abs(k - i) <= reach && (#[trigger] frames[k]).voiced
            && frames[k].f0 == pitch && single::less(single::ZERO, pitch) && (others ==> k != i) {
        let k = choose|k: int|
            0 <= k < frames.len() && vstd::math::abs(k - i) <= reach && (
            #[trigger] frames[k]).voiced && frames[k].f0 == pitch && single::less(
                single::ZERO,
                pitch,
            ) && (others ==> k != i);
        assert(c[k] == pitch);
        lemma_around_holds(c, lo, hi, skip, k);
    }
}

proof fn lemma_around_same(c: Seq<Bits>, d: Seq<Bits>, lo: int, hi: int, skip: int)
    requires
        forall|k: int| lo <= k < hi && k != skip ==> #[trigger] c[k] == d[k],
    ensures
        around(c, lo, hi, skip) == around(d, lo, hi, skip),
    decreases hi - lo,
{
    if lo < hi {
        lemma_around_same(c, d, lo, hi - 1, skip);
        if hi - 1 != skip {
            assert(c[hi - 1] == d[hi - 1]);
        }
    }
}

/// In which octave a frame should lie is said by its neighbours within twelve frames alone:
/// neither its own pitch counts, as long as it has one, nor what lies farther off.
pub proof fn a_frame_has_no_say_in_its_own_octave(
    a: Seq<PitchFrame>,
    b: Seq<PitchFrame>,
    i: int,
    r: Option<Bits>,
)
    requires
        a.len() == b.len(),
        0 <= i < a.len(),
        forall|k: int|
            0 <= k < a.len() && 0 < vstd::math::abs(k - i) <= 12 ==> #[trigger] a[k] == b[k],
        a[i].voiced,
        b[i].voiced,
        !single::nan(a[i].f0) && single::value(a[i].f0) > 0,
        !single::nan(b[i].f0) && single::value(b[i].f0) > 0,
        is_reference(a, i, r),
    ensures
        is_reference(b, i, r),
{
    single::zero_is_zero();
    let lo = near_from(i, 12);
    let hi = near_to(i, 12, a.len() as int);
    assert forall|k: int| lo <= k < hi && k != i implies #[trigger] contour(a)[k] == contour(b)[k] by {
        assert(a[k] == b[k]);
    }
    lemma_around_same(contour(a), contour(b), lo, hi, i);
}

/// The reference of a frame is a pitch that one of its neighbours within twelve frames
/// has, and where most of the neighbours that have a pitch have the same, it is that
/// one. Without at least four such neighbours there is none.
pub proof fn the_reference_is_what_most_neighbours_sing(
    frames: Seq<PitchFrame>,
    i: int,
    r: Bits,
    p: Bits,
)
    requires
        0 <= i < frames.len(),
        is_reference(frames, i, Some(r)),
    ensures
        ({
            let v = near(contour(frames), i, 12, true);
            &&& v.len() >= 4
            &&& exists|k: int|
                0 <= k < frames.len() && 0 < vstd::math::abs(k - i) <= 12 && (
                #[trigger] frames[k]).voiced && frames[k].f0 == r
            &&& 2 * sorting::how_many(v, |x: Bits| single::value(x) == single::value(p)) > v.len()
                ==> single::value(r) == single::value(p)
        }),
{
    let v = near(contour(frames), i, 12, true);
    sorting::ordering_invents_nothing(v, v.len() as int / 2, r);
    assert(v.contains(r));
    the_neighbourhood_is_what_lies_within_reach(frames, i, 12, true, r);
    if 2 * sorting::how_many(v, |x: Bits| single::value(x) == single::value(p)) > v.len() {
        lemma_near_are_numbers(frames, i, 12, true);
        sorting::a_majority_decides_the_median(v, r, p);
    }
}

proof fn lemma_near_are_numbers(frames: Seq<PitchFrame>, i: int, reach: int, others: bool)
    requires
        0 <= i < frames.len(),
        0 <= reach,
    ensures
        forall|k: int|
            0 <= k < near(contour(frames), i, reach, others).len() ==> !single::nan(
                #[trigger] near(contour(frames), i, reach, others)[k],
            ),
{
    let v = near(contour(frames), i, reach, others);
    assert forall|k: int| 0 <= k < v.len() implies !single::nan(#[trigger] v[k]) by {
        assert(v.contains(v[k]));
        the_neighbourhood_is_what_lies_within_reach(frames, i, reach, others, v[k]);
    }
}

/// The median filter gives a voiced frame the pitch that most of the frames within two of
/// it have, whatever its own: a single spike is taken out.
pub proof fn the_filter_takes_spikes_out(
    frames: Seq<PitchFrame>,
    i: int,
    after: PitchFrame,
    p: Bits,
)
    requires
        0 <= i < frames.len(),
        frames[i].voiced,
        filtered(frames, i, after),
        ({
            let v = near(contour(frames), i, 2, false);
            v.len() >= 3 && 2 * sorting::how_many(
                v,
                |x: Bits| single::value(x) == single::value(p),
            ) > v.len()
        }),
    ensures
        single::value(after.f0) == single::value(p),
        after.voiced,
        after.aperiodicity == frames[i].aperiodicity,
        after.rms == frames[i].rms,
{
    lemma_near_are_numbers(frames, i, 2, false);
    sorting::a_majority_decides_the_median(near(contour(frames), i, 2, false), after.f0, p);
}

/// A dropout that is closed lies inside the recording, is no longer than eight frames, and
/// has a voiced frame with a pitch on each side; all of its own frames are unvoiced.
pub proof fn dropouts_are_short_and_between_voices(frames: Seq<PitchFrame>, start: int, end: int)
    requires
        is_gap(frames, start, end),
    ensures
        0 < start < end < frames.len(),
        end - start <= 8,
        frames[start - 1].voiced && frames[end].voiced,
        single::nan(frames[start - 1].f0) || single::value(frames[start - 1].f0) > 0,
        single::nan(frames[end].f0) || single::value(frames[end].f0) > 0,
        forall|k: int| start <= k < end ==> !(#[trigger] frames[k]).voiced,
{
    single::zero_is_zero();
    assert(voicing(frames)[start - 1] && voicing(frames)[end]);
    assert forall|k: int| start <= k < end implies !(#[trigger] frames[k]).voiced by {
        assert(!voicing(frames)[k]);
    }
}

/// And every such stretch is one: no short dropout between two voices is left open.
pub proof fn every_short_dropout_is_closed(frames: Seq<PitchFrame>, start: int, end: int)
    requires
        0 < start < end < frames.len(),
        end - start <= 8,
        frames[start - 1].voiced,
        frames[end].voiced,
        !single::nan(frames[start - 1].f0) && single::value(frames[start - 1].f0) > 0,
        !single::nan(frames[end].f0) && single::value(frames[end].f0) > 0,
        forall|k: int| start <= k < end ==> !(#[trigger] frames[k]).voiced,
    ensures
        is_gap(frames, start, end),
{
    single::zero_is_zero();
    assert forall|k: int| start <= k < end implies !#[trigger] voicing(frames)[k] by {
        assert(!frames[k].voiced);
    }
}

/// A frame looks at the samples up to its own end and no farther: the last sample of its
/// window is the last sample of the frame, and the one before is the one before. Where
/// the recording has not begun there is silence.
pub proof fn a_window_ends_with_its_frame<T>(samples: Seq<T>, i: int, win: int, zero: T, back: int)
    requires
        0 <= i,
        i * 128 + 128 <= samples.len(),
        0 <= back < win,
    ensures
        window_at(samples, i, win, zero).len() == win,
        window_at(samples, i, win, zero)[win - 1 - back] == (if back <= i * 128 + 127 {
            samples[i * 128 + 127 - back]
        } else {
            zero
        }),
{
}

/// What a frame without a definite pitch is given: a pitch of zero, and never one that
/// was guessed; one with a pitch keeps it.
pub proof fn a_frame_is_voiced_as_it_was_heard(est: PitchEstimate, rms: Bits)
    ensures
        PitchFrame::of(est, rms).voiced == est.is_voiced,
        est.is_voiced ==> PitchFrame::of(est, rms).f0 == est.f0_hz,
        !est.is_voiced ==> PitchFrame::of(est, rms).f0 == 0,
        PitchFrame::of(est, rms).aperiodicity == est.aperiodicity,
        PitchFrame::of(est, rms).rms == rms,
{
}

/// A frame carries a pitch only where it is voiced and the pitch is above zero.
pub proof fn only_voiced_frames_with_a_pitch_sound(f: PitchFrame)
    requires
        !single::nan(f.f0),
    ensures
        sounds(f) <==> f.voiced && single::value(f.f0) > 0,
{
    single::zero_is_zero();
}

/// The pitches of two stretches are those of the first and then those of the second; a
/// voiced frame gives its pitch and any other frame gives none.
pub proof fn pitches_keep_their_order(a: Seq<PitchFrame>, b: Seq<PitchFrame>, f: PitchFrame)
    ensures
        voiced_f0s(a + b) == voiced_f0s(a) + voiced_f0s(b),
        f.voiced ==> voiced_f0s(seq![f]) == seq![f.f0],
        !f.voiced ==> voiced_f0s(seq![f]) == Seq::<Bits>::empty(),
    decreases b.len(),
{
    if b.len() == 0 {
        assert(a + b =~= a);
        assert(voiced_f0s(a) + voiced_f0s(b) =~= voiced_f0s(a));
    } else {
        pitches_keep_their_order(a, b.drop_last(), f);
        assert((a + b).drop_last() =~= a + b.drop_last());
        assert((a + b).last() == b.last());
        assert(voiced_f0s(a + b) =~= voiced_f0s(a) + voiced_f0s(b));
    }
    let one = seq![f];
    assert(one.drop_last() =~= Seq::<PitchFrame>::empty());
    assert(voiced_f0s(one.drop_last()) =~= Seq::<Bits>::empty());
    assert(one.last() == f);
}

/// The lowest pitch is the pitch of a frame that carries one, where it lies below the
/// largest number at all.
pub proof fn the_lowest_pitch_is_sung(frames: Seq<PitchFrame>)
    ensures
        lowest(frames) == LARGEST || exists|i: int|
            0 <= i < frames.len() && sounds(#[trigger] frames[i]) && frames[i].f0 == lowest(frames),
        (forall|i: int| 0 <= i < frames.len() ==> !sounds(#[trigger] frames[i])) ==> lowest(frames)
            == LARGEST,
    decreases frames.len(),
{
    if frames.len() > 0 {
        let front = frames.drop_last();
        the_lowest_pitch_is_sung(front);
        let n = frames.len() - 1;
        assert(frames.last() == frames[n]);
        if lowest(frames) == lowest(front) && lowest(front) != LARGEST {
            let i = choose|i: int|
                0 <= i < front.len() && sounds(#[trigger] front[i]) && front[i].f0 == lowest(front);
            assert(frames[i] == front[i]);
        }
        if forall|i: int| 0 <= i < frames.len() ==> !sounds(#[trigger] frames[i]) {
            assert forall|i: int| 0 <= i < front.len() implies !sounds(#[trigger] front[i]) by {
                assert(front[i] == frames[i]);
            }
        }
    }
}

/// As many frames are counted as brought back as have another pitch than they had, where
/// none is brought back to the pitch that it had.
pub proof fn every_frame_brought_back_is_counted(
    frames: Seq<PitchFrame>,
    found: Seq<Option<Octaves>>,
    n: int,
)
    requires
        0 <= n < found.len(),
        found.len() == frames.len(),
        found[n] matches Some(o) ==> o.f0 != frames[n].f0,
    ensures
        fixes(found, n + 1) == fixes(found, n) + (if brought_back(frames[n], found[n]) != frames[n] {
            1nat
        } else {
            0nat
        }),
        fixes(found, 0) == 0,
        fixes(found, n + 1) <= n + 1,
{
    lemma_fixes_bound(found, n + 1);
}

proof fn lemma_fixes_bound(found: Seq<Option<Octaves>>, n: int)
    requires
        0 <= n,
    ensures
        fixes(found, n) <= n,
    decreases n,
{
    if n > 0 {
        lemma_fixes_bound(found, n - 1);
    }
}

/// Closing a dropout makes its frames voiced, with the pitches that lead over it, and keeps
/// what else was measured of them; frames outside stay as they were.
pub proof fn closing_fills_the_dropouts_alone(
    before: Seq<PitchFrame>,
    after: Seq<PitchFrame>,
    gaps: Seq<Run>,
    values: Seq<Vec<Bits>>,
    i: int,
)
    requires
        closed_with(before, after, gaps, values),
        inside(gaps, before.len() as int),
        0 <= i < before.len(),
    ensures
        after.len() == before.len(),
        before[i].voiced ==> after[i].voiced,
        after[i].aperiodicity == before[i].aperiodicity && after[i].rms == before[i].rms,
        after[i] != before[i] ==> exists|k: int|
            0 <= k < gaps.len() && (#[trigger] gaps[k]).start <= i < gaps[k].end,
        (exists|k: int| 0 <= k < gaps.len() && (#[trigger] gaps[k]).start <= i < gaps[k].end)
            ==> after[i].voiced,
{
    if exists|k: int| 0 <= k < gaps.len() && (#[trigger] gaps[k]).start <= i < gaps[k].end {
        let k = choose|k: int|
            0 <= k < gaps.len() && (#[trigger] gaps[k]).start <= i < gaps[k].end;
        assert(after[i].voiced);
    } else {
        assert(after[i] == before[i]);
    }
}

/// Every run counts all its frames, so as many are filled as lie in all of them.
pub proof fn runs_count_their_frames(runs: Seq<Run>, n: int)
    requires
        0 <= n < runs.len(),
    ensures
        frames_in(runs, 0) == 0,
        frames_in(runs, n + 1) - frames_in(runs, n) == runs[n].end - runs[n].start,
{
}

/// Going through the frames leaves none out: after a frame comes the next one, or the end
/// behind the last. Only a refused report breaks it off, and an answer that was not asked
/// for counts for nothing.
pub proof fn frames_are_gone_through_one_by_one(i: int, n: int, go_on: bool)
    requires
        0 <= i < n <= usize::MAX,
    ensures
        i + 1 < n ==> step_after(i, n, true) == TrackStep::Frame((i + 1) as usize),
        i + 1 == n ==> step_after(i, n, true) == TrackStep::Done,
        step_after(i, n, go_on) == step_after(i, n, true) || step_after(i, n, go_on)
            == TrackStep::Stop,
        step_after(i, n, go_on) == TrackStep::Stop <==> !go_on && i % 64 == 0,
{
}

/// A frame has a reference just where it has a pitch itself and at least four others within
/// twelve frames have one.
pub proof fn a_frame_without_a_pitch_has_no_reference(
    frames: Seq<PitchFrame>,
    i: int,
    r: Option<Bits>,
)
    requires
        0 <= i < frames.len(),
        !single::nan(frames[i].f0),
        is_reference(frames, i, r),
    ensures
        r is Some <==> frames[i].voiced && single::value(frames[i].f0) > 0 && near(
            contour(frames),
            i,
            12,
            true,
        ).len() >= 4,
{
    single::zero_is_zero();
}

/// Undoing a delay brings every sample forward by it and ends in silence; without a delay,
/// or with one as long as the signal, nothing changes.
pub proof fn undoing_a_delay_brings_samples_forward<T>(out: Seq<T>, delay: int, zero: T, i: int)
    requires
        0 <= i < out.len(),
    ensures
        undone(out, delay, zero).len() == out.len(),
        0 < delay && i + delay < out.len() ==> undone(out, delay, zero)[i] == out[i + delay],
        0 < delay < out.len() && out.len() - delay <= i ==> undone(out, delay, zero)[i] == zero,
        delay <= 0 || delay >= out.len() ==> undone(out, delay, zero) == out,
{
}

} // verus!
