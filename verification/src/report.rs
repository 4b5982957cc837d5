//! What a measuring run says of the audio chain: the judgements behind its
//! report, the rounds of the latency measurement and the sweep over buffer
//! sizes.
use crate::backend::BackendInfo;
use crate::metrics::MetricsSnapshot;
use crate::single::{self, Bits};
use crate::thresholds;
use vstd::prelude::*;

verus! {

/// 60 Hz and 260 Hz: the pitch floor lies between them.
pub const F0_FLOOR_LOW: Bits = 0x4270_0000;

pub const F0_FLOOR_HIGH: Bits = 0x4382_0000;

/// One and six blocks: the target fill of the ring lies between them.
pub const FILL_LOW: Bits = 0x3F80_0000;

pub const FILL_HIGH: Bits = 0x40C0_0000;

/// 0.02: a noise floor above this cannot be one.
pub const NOISE_UNUSABLE: Bits = 0x3CA3_D70A;

/// 0.005: a noise floor above this swallows soft onsets. A peak below it is no
/// signal.
pub const NOISE_LOUD: Bits = 0x3BA3_D70A;

/// Six hundred seconds: a shorter run says nothing of drift.
pub const FULL_RUN_SECS: Bits = 0x4416_0000;

/// 0.4: a match with less confidence than this is unsure.
pub const UNSURE: Bits = 0x3ECC_CCCD;

/// Five milliseconds: measurements that spread further are unsteady.
pub const SPREAD_LIMIT_US: u64 = 5000;

/// Does a pitch floor lie in its range?
pub fn f0_floor_fits(v: Bits) -> (r: bool)
    ensures
        r == (single::at_most(F0_FLOOR_LOW, v) && single::at_most(v, F0_FLOOR_HIGH)),
{
    single::le(F0_FLOOR_LOW, v) && single::le(v, F0_FLOOR_HIGH)
}

/// Does a target fill lie in its range?
pub fn target_fill_fits(v: Bits) -> (r: bool)
    ensures
        r == (single::at_most(FILL_LOW, v) && single::at_most(v, FILL_HIGH)),
{
    single::le(FILL_LOW, v) && single::le(v, FILL_HIGH)
}

/// How raising the priority of the audio threads went.
#[derive(Clone, Copy, PartialEq, Eq, Structural, Debug)]
pub enum Priority {
    /// At least one was refused.
    Refused,
    /// Both have it.
    Raised,
    /// Fewer than two have asked yet.
    Missing,
}

/// How raising the priority of the audio threads went.
pub fn priority(m: &MetricsSnapshot) -> (p: Priority)
    ensures
        p == (if m.rt_failures > 0 {
            Priority::Refused
        } else if m.rt_promotions >= 2 {
            Priority::Raised
        } else {
            Priority::Missing
        }),
        p == Priority::Raised ==> m.rt_promotions > 1 && m.rt_failures == 0,
        p == Priority::Refused <==> m.rt_failures != 0,
{
    if m.rt_failures > 0 {
        Priority::Refused
    } else if m.rt_promotions >= 2 {
        Priority::Raised
    } else {
        Priority::Missing
    }
}

/// What an underrun is put down to.
#[derive(Clone, Copy, PartialEq, Eq, Structural, Debug)]
pub enum Blame {
    /// The capture thread was starved.
    Capture,
    /// The render thread was starved.
    Render,
    /// Neither was: look at the fill of the ring.
    Elsewhere,
}

/// What the underruns are put down to, where there were any.
pub fn blame(m: &MetricsSnapshot) -> (b: Option<Blame>)
    ensures
        b == (if m.xruns == 0 {
            None
        } else if m.capture_stalls > m.render_stalls {
            Some(Blame::Capture)
        } else if m.render_stalls > 0 {
            Some(Blame::Render)
        } else {
            Some(Blame::Elsewhere)
        }),
        b is None <==> m.xruns == 0,
        b == Some(Blame::Elsewhere) <==> m.xruns > 0 && m.capture_stalls == 0 && m.render_stalls == 0,
        b == Some(Blame::Capture) ==> m.capture_stalls > 0,
        b == Some(Blame::Render) ==> m.render_stalls >= m.capture_stalls,
{
    if m.xruns == 0 {
        None
    } else if m.capture_stalls > m.render_stalls {
        Some(Blame::Capture)
    } else if m.render_stalls > 0 {
        Some(Blame::Render)
    } else {
        Some(Blame::Elsewhere)
    }
}

/// What the noise floor means for the noise gate.
#[derive(Clone, Copy, PartialEq, Eq, Structural, Debug)]
pub enum Surroundings {
    Quiet,
    /// Soft onsets may stay behind the noise gate.
    Loud,
    /// What was measured cannot be noise, and the noise gate stands open.
    Implausible,
}

/// What the noise floor means for the noise gate.
pub fn surroundings(floor: Bits) -> (s: Surroundings)
    ensures
        s == (if single::less(NOISE_UNUSABLE, floor) {
            Surroundings::Implausible
        } else if single::less(NOISE_LOUD, floor) {
            Surroundings::Loud
        } else {
            Surroundings::Quiet
        }),
        !single::nan(floor) ==> (s == Surroundings::Implausible <==> single::value(floor)
            > single::value(NOISE_UNUSABLE)),
        !single::nan(floor) && single::value(floor) <= single::value(NOISE_LOUD) ==> s
            != Surroundings::Loud,
{
    if single::lt(NOISE_UNUSABLE, floor) {
        Surroundings::Implausible
    } else if single::lt(NOISE_LOUD, floor) {
        Surroundings::Loud
    } else {
        Surroundings::Quiet
    }
}

/// The judgement of a run, item by item.
#[derive(Clone, Copy, PartialEq, Eq, Structural, Debug)]
pub struct Judgement {
    /// Did audio come in, and did it go out?
    pub came_in: bool,
    pub went_out: bool,
    /// No underrun, no overflow.
    pub healthy: bool,
    /// What drift is left after compensation is bearable.
    pub drift_ok: bool,
    /// The latency that counts: the measured one where there is one.
    pub latency_ms: Bits,
    pub measured: bool,
    pub latency_ok: bool,
    /// Was the run too short to say anything of drift?
    pub too_short: bool,
    /// All of it together.
    pub pass: bool,
}

/// Judges a run. `expected` is the number of frames that must have come in and
/// gone out; `residual_ms` what drift is left; `measured_ms` and `theory_ms` the
/// latency as measured and as computed.
///
/// That audio has flowed is part of the judgement: an engine through which
/// nothing flows has no underruns and no drift either.
pub fn judge(
    m: &MetricsSnapshot,
    expected: u64,
    residual_ms: Bits,
    measured_ms: Bits,
    theory_ms: Bits,
    duration: Bits,
) -> (j: Judgement)
    ensures
        j.came_in == (m.input_frames > expected),
        j.went_out == (m.output_frames > expected),
        j.healthy == (m.xruns == 0 && m.overflows == 0 && m.dsp_underruns == 0),
        j.drift_ok == single::at_most(residual_ms, thresholds::DRIFT_NO_GO_MS),
        j.measured == (m.measured_rt_us > 0),
        j.latency_ms == (if m.measured_rt_us > 0 {
            measured_ms
        } else {
            theory_ms
        }),
        j.latency_ok == single::at_most(j.latency_ms, thresholds::LATENCY_NO_GO_MS),
        j.too_short == single::less(duration, FULL_RUN_SECS),
        j.pass == (j.came_in && j.went_out && j.healthy && j.drift_ok && j.latency_ok),
        // A run passes just where audio has flowed both ways, nothing was lost, the ring has
        // not drifted and the latency is one that can be shipped.
        j.pass <==> m.input_frames > expected && m.output_frames > expected && m.xruns == 0
            && m.overflows == 0 && m.dsp_underruns == 0 && single::at_most(
            residual_ms,
            thresholds::DRIFT_NO_GO_MS,
        ) && (m.measured_rt_us > 0 ==> single::at_most(measured_ms, thresholds::LATENCY_NO_GO_MS)) && (
        m.measured_rt_us == 0 ==> single::at_most(theory_ms, thresholds::LATENCY_NO_GO_MS)),
{
    let came_in: bool = m.input_frames > expected;
    let went_out: bool = m.output_frames > expected;
    let healthy: bool = m.is_healthy();
    let drift_ok: bool = single::le(residual_ms, thresholds::DRIFT_NO_GO_MS);
    let measured: bool = m.measured_rt_us > 0;
    let latency_ms: Bits = if measured {
        measured_ms
    } else {
        theory_ms
    };
    let latency_ok: bool = single::le(latency_ms, thresholds::LATENCY_NO_GO_MS);
    Judgement {
        came_in,
        went_out,
        healthy,
        drift_ok,
        latency_ms,
        measured,
        latency_ok,
        too_short: single::lt(duration, FULL_RUN_SECS),
        pass: came_in && went_out && healthy && drift_ok && latency_ok,
    }
}

/// What is known of the block size that the device works with.
#[derive(Clone, Copy, PartialEq, Eq, Structural, Debug)]
pub enum Blocks {
    /// Nothing has run yet.
    Unknown,
    /// The device took what was asked for.
    Honored,
    /// It did not. In shared mode it never does.
    Own { shared: bool },
}

/// What is known of the block size that the device works with.
pub fn blocks(info: &BackendInfo) -> (b: Blocks)
    ensures
        b == (if info.output_block_frames == 0 {
            Blocks::Unknown
        } else if info.output_block_frames == info.requested_buffer_frames {
            Blocks::Honored
        } else {
            Blocks::Own { shared: !info.exclusive }
        }),
{
    if info.output_block_frames == 0 {
        Blocks::Unknown
    } else if info.buffer_size_honored() {
        Blocks::Honored
    } else {
        Blocks::Own { shared: !info.exclusive }
    }
}

/// Why no echo was found.
#[derive(Clone, Copy, PartialEq, Eq, Structural, Debug)]
pub enum NoEcho {
    /// Nothing comes in.
    NoSignal,
    /// Something comes in, too quiet to count.
    TooQuiet,
    /// It is loud enough: the device takes the pulse out.
    Suppressed,
}

/// Why no echo was found, from the loudest sample and the threshold.
pub fn no_echo(peak: Bits, threshold: Bits) -> (n: NoEcho)
    ensures
        n == (if single::less(peak, NOISE_LOUD) {
            NoEcho::NoSignal
        } else if single::less(peak, threshold) {
            NoEcho::TooQuiet
        } else {
            NoEcho::Suppressed
        }),
        !single::nan(peak) && !single::nan(threshold) ==> (n == NoEcho::Suppressed
            <==> single::value(peak) >= single::value(threshold) && single::value(peak)
            >= single::value(NOISE_LOUD)),
{
    if single::lt(peak, NOISE_LOUD) {
        NoEcho::NoSignal
    } else if single::lt(peak, threshold) {
        NoEcho::TooQuiet
    } else {
        NoEcho::Suppressed
    }
}

/// The rounds of a latency measurement.
pub struct Rounds {
    /// Measurements that the probe had completed when a round last ended.
    pub seen: u64,
    /// The measured times, in microseconds.
    pub samples: Vec<u64>,
}

/// How a round stands.
#[derive(Clone, Copy, PartialEq, Eq, Structural, Debug)]
pub enum Poll {
    /// The echo is there.
    Got,
    /// It did not come in time.
    TimedOut,
    Waiting,
}

impl Rounds {
    /// Before the first round, with what the probe has completed until now.
    pub fn new(completed: u64) -> (r: Rounds)
        ensures
            r.seen == completed,
            r.samples@.len() == 0,
    {
        Rounds { seen: completed, samples: Vec::new() }
    }

    /// Looks after a round: `completed` is what the probe has completed by now and
    /// `last_us` the time it measured last, `late` whether the time is up. An echo
    /// that comes at the last moment counts.
    pub fn poll(&mut self, completed: u64, last_us: u64, late: bool) -> (p: Poll)
        ensures
            p == (if completed > old(self).seen {
                Poll::Got
            } else if late {
                Poll::TimedOut
            } else {
                Poll::Waiting
            }),
            final(self).seen == (if completed > old(self).seen {
                completed
            } else {
                old(self).seen
            }),
            final(self).samples@ == (if completed > old(self).seen {
                old(self).samples@.push(last_us)
            } else {
                old(self).samples@
            }),
    {
        if completed > self.seen {
            self.seen = completed;
            self.samples.push(last_us);
            Poll::Got
        } else if late {
            Poll::TimedOut
        } else {
            Poll::Waiting
        }
    }
}

/// Do the measurements spread so far that the system must be unsteady?
pub fn is_unsteady(spread_us: u64) -> (r: bool)
    ensures
        r == (spread_us > SPREAD_LIMIT_US),
{
    spread_us > SPREAD_LIMIT_US
}

/// The number of buffer sizes that a sweep tries.
pub const SWEEP_STEPS: usize = 7;

/// The buffer sizes that a sweep tries, smallest first.
pub open spec fn sweep_sizes() -> Seq<u32> {
    seq![64u32, 96, 128, 192, 256, 384, 512]
}

/// Buffer size number `k` of a sweep.
pub fn sweep_size(k: usize) -> (n: u32)
    requires
        k < SWEEP_STEPS,
    ensures
        n == sweep_sizes()[k as int],
{
    if k == 0 {
        64
    } else if k == 1 {
        96
    } else if k == 2 {
        128
    } else if k == 3 {
        192
    } else if k == 4 {
        256
    } else if k == 5 {
        384
    } else {
        512
    }
}

/// The sizes of a sweep rise, so that the first that works is the smallest.
pub proof fn sweep_sizes_rise(j: int, k: int)
    requires
        0 <= j < k < SWEEP_STEPS,
    ensures
        sweep_sizes()[j] < sweep_sizes()[k],
{
    let s = sweep_sizes();
    assert(s[0] == 64 && s[1] == 96 && s[2] == 128 && s[3] == 192 && s[4] == 256 && s[5] == 384
        && s[6] == 512);
}

/// What a sweep has come to so far.
pub struct Sweep {
    /// The first size that worked.
    pub best: Option<u32>,
    /// The sizes that the device used.
    pub actual: Vec<u32>,
}

/// What a sweep comes to.
#[derive(Clone, Copy, PartialEq, Eq, Structural, Debug)]
pub enum Found {
    /// The device always used this size, so that the sweep says nothing. Zero
    /// where it never ran.
    Fixed(u32),
    /// The smallest size that worked.
    Size(u32),
    /// None worked.
    Nothing,
}

/// Was the device's size always the same?
pub open spec fn unchanging(actual: Seq<u32>) -> bool {
    forall|i: int| 0 <= i < actual.len() ==> #[trigger] actual[i] == actual[0]
}

impl Sweep {
    /// Before the first size.
    pub fn new() -> (s: Sweep)
        ensures
            s.best is None,
            s.actual@.len() == 0,
    {
        Sweep { best: None, actual: Vec::new() }
    }

    /// A size was tried and the device used `actual`. Sizes that the device did not
    /// start with are not noted.
    pub fn note(&mut self, frames: u32, healthy: bool, actual: u32)
        ensures
            final(self).actual@ == old(self).actual@.push(actual),
            final(self).best == (if healthy && old(self).best is None {
                Some(frames)
            } else {
                old(self).best
            }),
            // The first size that works stays.
            old(self).best is Some ==> final(self).best == old(self).best,
            !healthy ==> final(self).best == old(self).best,
            healthy ==> final(self).best is Some,
    {
        self.actual.push(actual);
        if healthy {
            match self.best {
                Some(_) => {},
                None => {
                    self.best = Some(frames);
                },
            }
        }
    }

    /// What the sweep comes to.
    pub fn conclude(&self) -> (f: Found)
        ensures
            f == (if unchanging(self.actual@) {
                Found::Fixed(
                    if self.actual@.len() == 0 {
                        0
                    } else {
                        self.actual@[0]
                    },
                )
            } else {
                match self.best {
                    Some(n) => Found::Size(n),
                    None => Found::Nothing,
                }
            }),
            // Two sizes that differ are enough for the sweep to say something.
            (exists|i: int, j: int|
                0 <= i < self.actual@.len() && 0 <= j < self.actual@.len()
                    && #[trigger] self.actual@[i] != #[trigger] self.actual@[j]) <==> f !is Fixed,
            f matches Found::Size(n) ==> self.best == Some(n),
    {
        if self.actual.len() == 0 {
            return Found::Fixed(0);
        }
        let first: u32 = self.actual[0];
        let mut i: usize = 0;
        while i < self.actual.len()
            invariant
                i <= self.actual@.len(),
                0 < self.actual@.len(),
                first == self.actual@[0],
                forall|j: int| 0 <= j < i ==> #[trigger] self.actual@[j] == first,
            decreases self.actual@.len() - i,
        {
            if self.actual[i] != first {
                return match self.best {
                    Some(n) => Found::Size(n),
                    None => Found::Nothing,
                };
            }
            i = i + 1;
        }
        Found::Fixed(first)
    }
}

/// A progress display that moves in steps of five percent.
pub struct Bar {
    last: Option<u32>,
}

impl Bar {
    /// What was shown last.
    pub closed spec fn shown(&self) -> Option<u32> {
        self.last
    }

    /// Nothing shown yet.
    pub fn new() -> (b: Bar)
        ensures
            b.shown() is None,
    {
        Bar { last: None }
    }

    /// What to show at `percent`, where it differs from what is shown.
    pub fn step(&mut self, percent: u32) -> (r: Option<u32>)
        ensures
            final(self).shown() == Some((percent as int / 5 * 5) as u32),
            r == (if old(self).shown() == Some((percent as int / 5 * 5) as u32) {
                None
            } else {
                Some((percent as int / 5 * 5) as u32)
            }),
            // Whole steps of five, no more than what there is and less than a step short of it.
            final(self).shown() matches Some(s) && s <= percent < s + 5 && s % 5 == 0,
            r is Some ==> r == final(self).shown(),
            r is None <==> final(self).shown() == old(self).shown(),
    {
        let p: u32 = percent / 5 * 5;
        let same: bool = match self.last {
            Some(q) => q == p,
            None => false,
        };
        self.last = Some(p);
        if same {
            None
        } else {
            Some(p)
        }
    }
}

/// What is to be said of a match between two voices.
#[derive(Clone, Copy, PartialEq, Eq, Structural, Debug)]
pub enum Caution {
    /// There is too little voice: the numbers are not to be used.
    Unusable,
    /// The voices hardly differ.
    Unsure,
    Fine,
}

/// What is to be said of a match between two voices.
pub fn caution(usable: bool, confidence: Bits) -> (c: Caution)
    ensures
        c == (if !usable {
            Caution::Unusable
        } else if single::less(confidence, UNSURE) {
            Caution::Unsure
        } else {
            Caution::Fine
        }),
        c == Caution::Unusable <==> !usable,
        usable && !single::nan(confidence) ==> (c == Caution::Fine <==> single::value(confidence)
            >= single::value(UNSURE)),
{
    if !usable {
        Caution::Unusable
    } else if single::lt(confidence, UNSURE) {
        Caution::Unsure
    } else {
        Caution::Fine
    }
}

} // verus!
