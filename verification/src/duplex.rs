//! The two halves of the duplex bridge: capture writes into a ring, render
//! reads from it, keeps the ring near a target fill, and makes up for the drift
//! between the two clocks.
//!
//! Time comes in as nanoseconds on one monotonic clock.
use crate::metrics::{self, Metrics};
use crate::priority::Promotions;
use crate::ring;
use crate::single::{self, Bits};
use crate::sizes;
use vstd::prelude::*;

verus! {

/// The smallest ring, in samples.
pub const MIN_RING: usize = 16_384;

/// The smallest render buffer, in samples.
pub const MIN_SCRATCH: usize = 8_192;

/// A block of more samples than this would overflow the time arithmetic.
pub open spec fn block_fits(frames: int) -> bool {
    frames * 3_000_000 <= u64::MAX && frames * 16 <= usize::MAX
}

/// How long a block lasts, in microseconds.
pub open spec fn nominal_us(frames: int, sample_rate: u32) -> int {
    frames * 1_000_000 / (if sample_rate == 0 {
        1
    } else {
        sample_rate as int
    })
}

/// Time since the last call in microseconds, where there was one.
pub open spec fn gap_us(last: Option<u64>, now_ns: u64) -> Option<int> {
    match last {
        None => None,
        Some(l) => Some(if now_ns < l {
            0
        } else {
            (now_ns - l) / 1000
        }),
    }
}

/// Is this gap a stall: over three times as long as a block lasts?
pub open spec fn is_stall(gap: int, nominal: int) -> bool {
    nominal > 0 && gap > nominal * 3
}

fn gap_of(last: Option<u64>, now_ns: u64) -> (gap: Option<u64>)
    ensures
        gap is Some == gap_us(last, now_ns) is Some,
        gap matches Some(g) ==> g == gap_us(last, now_ns)->0,
{
    match last {
        None => None,
        Some(l) => Some(now_ns.saturating_sub(l) / 1000),
    }
}

fn nominal_of(frames: usize, sample_rate: u32) -> (us: u64)
    requires
        block_fits(frames as int),
    ensures
        us == nominal_us(frames as int, sample_rate),
        us * 3 <= u64::MAX,
{
    let rate: u64 = if sample_rate == 0 {
        1
    } else {
        sample_rate as u64
    };
    let total: u64 = frames as u64 * 1_000_000;
    assert(total / rate <= total) by (nonlinear_arith)
        requires
            rate >= 1,
    ;
    total / rate
}

/// The sizes that a bridge is made with.
#[derive(Clone, Copy, PartialEq, Eq, Structural, Debug)]
pub struct DuplexConfig {
    pub sample_rate: u32,
    /// The block size hoped for. It sets the capacities, nothing else.
    pub hint_block_frames: u32,
    /// The capture block, zero where it is not known yet.
    pub capture_block_frames: u32,
    /// Are the audio threads to get real-time priority?
    pub realtime_priority: bool,
}

/// The capacity of the ring for a hinted block size.
pub fn ring_capacity(hint: u32) -> (cap: usize)
    requires
        hint * 16 <= usize::MAX,
    ensures
        sizes::rounded_up(
            metrics::most(hint * 8, MIN_RING as int),
            cap as int,
        ),
        cap > 0,
{
    let wanted: usize = hint as usize * 8;
    if wanted < MIN_RING {
        sizes::next_power_of_two(MIN_RING)
    } else {
        sizes::next_power_of_two(wanted)
    }
}

/// The size of the render buffer for a hinted block size.
pub fn scratch_len(hint: u32) -> (n: usize)
    requires
        hint * 4 <= usize::MAX,
    ensures
        n == metrics::most(hint * 4, MIN_SCRATCH as int),
{
    let wanted: usize = hint as usize * 4;
    if wanted < MIN_SCRATCH {
        MIN_SCRATCH
    } else {
        wanted
    }
}

/// The capture half.
pub struct CaptureHalf {
    pub producer: rtrb::Producer<Bits>,
    pub promoted: bool,
    pub realtime: bool,
    pub sample_rate: u32,
    pub hint_block: u32,
    pub last_call: Option<u64>,
}

/// The render half.
pub struct RenderHalf {
    pub consumer: rtrb::Consumer<Bits>,
    /// Samples taken from the ring for the block at hand.
    pub pull_buf: Vec<Bits>,
    pub observed_block: usize,
    pub typical_block: usize,
    pub target_fill: usize,
    pub slack: usize,
    pub budget_us: u64,
    pub started: bool,
    pub capture_block: usize,
    pub promoted: bool,
    pub realtime: bool,
    pub sample_rate: u32,
    pub hint_block: u32,
    pub last_call: Option<u64>,
}

/// Makes both halves.
pub fn new(cfg: DuplexConfig) -> (halves: (CaptureHalf, RenderHalf))
    requires
        cfg.hint_block_frames * 64 <= isize::MAX,
    ensures
        ring::written(halves.0.producer).len() == 0,
        ring::taken(halves.1.consumer).len() == 0,
        ring::stream_in(halves.0.producer) == ring::stream_out(halves.1.consumer),
        sizes::rounded_up(
            metrics::most(cfg.hint_block_frames * 8, MIN_RING as int),
            ring::room(halves.0.producer) as int,
        ),
        ring::depth(halves.1.consumer) == ring::room(halves.0.producer),
        ring::refusals(halves.0.producer) == 0,
        ring::ready(halves.1.consumer) == 0,
        ring::misses(halves.1.consumer) == 0,
        halves.0.last_call is None,
        !halves.0.promoted,
        halves.0.realtime == cfg.realtime_priority,
        halves.0.sample_rate == cfg.sample_rate,
        halves.0.hint_block == cfg.hint_block_frames,
        halves.1.wf(),
        halves.1.pull_buf@.len() == metrics::most(cfg.hint_block_frames * 4, MIN_SCRATCH as int),
        halves.1.observed_block == 0,
        halves.1.typical_block == 0,
        halves.1.target_fill == 0,
        halves.1.slack == 8,
        halves.1.budget_us == 0,
        !halves.1.started,
        halves.1.capture_block == cfg.capture_block_frames,
        halves.1.last_call is None,
        !halves.1.promoted,
        halves.1.realtime == cfg.realtime_priority,
        halves.1.sample_rate == cfg.sample_rate,
        halves.1.hint_block == cfg.hint_block_frames,
{
    let cap: usize = ring_capacity(cfg.hint_block_frames);
    let (producer, consumer) = ring::ring(cap);
    let capture = CaptureHalf {
        producer,
        promoted: false,
        realtime: cfg.realtime_priority,
        sample_rate: cfg.sample_rate,
        hint_block: cfg.hint_block_frames,
        last_call: None,
    };
    let render = RenderHalf {
        consumer,
        pull_buf: vec![single::ZERO; scratch_len(cfg.hint_block_frames)],
        observed_block: 0,
        typical_block: 0,
        target_fill: 0,
        slack: 8,
        budget_us: 0,
        started: false,
        capture_block: cfg.capture_block_frames as usize,
        promoted: false,
        realtime: cfg.realtime_priority,
        sample_rate: cfg.sample_rate,
        hint_block: cfg.hint_block_frames,
        last_call: None,
    };
    (capture, render)
}

impl CaptureHalf {
    /// Claims the one attempt at real-time priority: true at the first call,
    /// where priority is wanted at all.
    pub fn claim_promotion(&mut self) -> (due: bool)
        ensures
            due == (old(self).realtime && !old(self).promoted),
            *final(self) == (CaptureHalf {
                promoted: old(self).promoted || due,
                ..*old(self)
            }),
    {
        if self.realtime && !self.promoted {
            self.promoted = true;
            true
        } else {
            false
        }
    }

    /// Makes the one attempt at real-time priority where it is due, and counts
    /// how it went. The answer is none where no attempt was due.
    pub fn promote(&mut self, promotions: &mut Promotions, metrics: &mut Metrics) -> (r: Option<bool>)
        ensures
            r is Some == (old(self).realtime && !old(self).promoted),
            *final(self) == (CaptureHalf {
                promoted: old(self).promoted || r is Some,
                ..*old(self)
            }),
            r is None ==> *final(promotions) == *old(promotions) && *final(metrics) == *old(metrics),
            r is Some ==> final(promotions).asked@ == old(promotions).asked@.push(
                (old(self).hint_block, old(self).sample_rate),
            ),
            r matches Some(granted) ==> {
                &&& final(promotions).promoted == (old(promotions).promoted || granted)
                &&& *final(metrics) == old(metrics).with_promotion(granted)
                &&& old(self).sample_rate == 0 ==> !granted
            },
    {
        if self.claim_promotion() {
            let granted: bool = promotions.promote_audio_thread(self.hint_block, self.sample_rate);
            metrics.record_promotion(granted);
            Some(granted)
        } else {
            None
        }
    }

    /// Takes a captured block: notes the gap since the last one, counts, and
    /// writes the samples into the ring. What the ring has no room for is
    /// counted as overflow.
    pub fn push(&mut self, mono: &[Bits], now_ns: u64, metrics: &mut Metrics)
        requires
            ring::on_record(old(self).producer),
            block_fits(mono@.len() as int),
        ensures
            ring::on_record(final(self).producer),
            ring::stream_in(final(self).producer) == ring::stream_in(old(self).producer),
            ring::room(final(self).producer) == ring::room(old(self).producer),
            exists|flags: Seq<bool>, dropped: int| #[trigger]
                ring::pushed(old(self).producer, final(self).producer, mono@, flags, dropped)
                    && *final(metrics) == captured(
                    *old(metrics),
                    gap_us(old(self).last_call, now_ns),
                    nominal_us(mono@.len() as int, old(self).sample_rate),
                    mono@.len(),
                    dropped,
                ),
            ring::written(old(self).producer).len() + mono@.len() <= ring::room(old(self).producer)
                ==> ring::written(final(self).producer) == ring::written(old(self).producer) + mono@
                && final(metrics).overflows == old(metrics).overflows,
            *final(self) == (CaptureHalf {
                producer: final(self).producer,
                last_call: Some(now_ns),
                ..*old(self)
            }),
    {
        let gap: Option<u64> = gap_of(self.last_call, now_ns);
        let nominal: u64 = nominal_of(mono.len(), self.sample_rate);
        self.last_call = Some(now_ns);
        let dropped: u64 = ring::push_block(&mut self.producer, mono);
        note_capture(metrics, gap, nominal, mono.len(), dropped);
        proof {
            let flags = choose|flags: Seq<bool>| #[trigger]
                ring::pushed(old(self).producer, self.producer, mono@, flags, dropped as int);
            assert(ring::pushed(old(self).producer, self.producer, mono@, flags, dropped as int));
        }
    }
}

/// The counters after a captured block of `n` samples of which `dropped` found
/// the ring full.
pub open spec fn captured(m: Metrics, gap: Option<int>, nominal: int, n: nat, dropped: int) -> Metrics {
    Metrics {
        capture_gap_max_us: match gap {
            Some(g) => metrics::most(m.capture_gap_max_us as int, g) as u64,
            None => m.capture_gap_max_us,
        },
        capture_stalls: match gap {
            Some(g) => if is_stall(g, nominal) {
                m.capture_stalls.wrapping_add(1)
            } else {
                m.capture_stalls
            },
            None => m.capture_stalls,
        },
        input_callbacks: m.input_callbacks.wrapping_add(1),
        input_frames: m.input_frames.wrapping_add(n as u64),
        actual_input_block: metrics::most(m.actual_input_block as int, (n as u32) as int) as u32,
        overflows: m.overflows.wrapping_add(dropped as u64),
        ..m
    }
}

/// Counts a captured block of `n` samples of which `dropped` found the ring
/// full.
pub fn note_capture(m: &mut Metrics, gap: Option<u64>, nominal: u64, n: usize, dropped: u64)
    requires
        nominal * 3 <= u64::MAX,
    ensures
        *final(m) == captured(
            *old(m),
            match gap {
                Some(g) => Some(g as int),
                None => None,
            },
            nominal as int,
            n as nat,
            dropped as int,
        ),
{
    if let Some(g) = gap {
        if m.capture_gap_max_us < g {
            m.capture_gap_max_us = g;
        }
        if nominal > 0 && g > nominal * 3 {
            m.capture_stalls = m.capture_stalls.wrapping_add(1);
        }
    }
    m.input_callbacks = m.input_callbacks.wrapping_add(1);
    m.input_frames = m.input_frames.wrapping_add(n as u64);
    let short: u32 = n as u32;
    if m.actual_input_block < short {
        m.actual_input_block = short;
    }
    m.overflows = m.overflows.wrapping_add(dropped);
}

/// The typical block after one more of `frames` samples: a running mean, so that
/// a single odd block does not move the target fill.
pub open spec fn learned_block(typical: int, frames: int) -> int {
    if typical == 0 {
        frames
    } else {
        (typical * 15 + frames) / 16
    }
}

/// The counters after a render callback for `n` samples has begun.
pub open spec fn begun(m: Metrics, gap: Option<int>, nominal: int, n: nat) -> Metrics {
    Metrics {
        render_gap_max_us: match gap {
            Some(g) => metrics::most(m.render_gap_max_us as int, g) as u64,
            None => m.render_gap_max_us,
        },
        render_stalls: match gap {
            Some(g) => if is_stall(g, nominal) {
                m.render_stalls.wrapping_add(1)
            } else {
                m.render_stalls
            },
            None => m.render_stalls,
        },
        output_callbacks: m.output_callbacks.wrapping_add(1),
        output_frames: m.output_frames.wrapping_add(n as u64),
        max_output_block: metrics::most(m.max_output_block as int, (n as u32) as int) as u32,
        ..m
    }
}

/// The time that a block lasts, in microseconds. Without a sample rate it lasts
/// for ever, if it holds anything.
pub open spec fn budget_of(typical: int, sample_rate: u32) -> int {
    if sample_rate > 0 {
        typical * 1_000_000 / (sample_rate as int)
    } else if typical > 0 {
        u64::MAX as int
    } else {
        0
    }
}

/// One look at the ring.
#[derive(Clone, Copy, PartialEq, Eq, Structural, Debug)]
pub struct Look {
    /// Samples in the ring.
    pub fill: usize,
    /// Is there output? If not, the block is silence: the ring is still filling.
    pub playing: bool,
    /// Did output start with this block?
    pub just_started: bool,
}

/// The samples fetched for a block.
#[derive(Clone, Copy, PartialEq, Eq, Structural, Debug)]
pub struct Fetched {
    /// Samples that came from the ring.
    pub got: usize,
    /// Samples to process.
    pub len: usize,
}

/// A block of `want` samples of which `got` came from the ring, brought to
/// `len` samples: what is missing is silence, and beyond `want` the last sample
/// is repeated.
pub open spec fn brought_to(buf: Seq<Bits>, got: int, want: int, len: int) -> Seq<Bits> {
    Seq::new(
        buf.len(),
        |i: int|
            if i < got || i >= metrics::most(want, len) {
                buf[i]
            } else if i < want {
                single::ZERO
            } else if want == 0 || got < want {
                single::ZERO
            } else {
                buf[want - 1]
            },
    )
}

/// Brings a block to its length.
pub fn bring_to(buf: &mut Vec<Bits>, got: usize, want: usize, len: usize)
    requires
        got <= want <= old(buf)@.len(),
        len <= old(buf)@.len(),
    ensures
        final(buf)@ == brought_to(old(buf)@, got as int, want as int, len as int),
{
    let mut i: usize = got;
    while i < want
        invariant
            got <= i <= want <= buf@.len(),
            buf@.len() == old(buf)@.len(),
            forall|j: int| 0 <= j < got || i <= j < buf@.len() ==> buf@[j] == old(buf)@[j],
            forall|j: int| got <= j < i ==> buf@[j] == single::ZERO,
        decreases want - i,
    {
        buf[i] = single::ZERO;
        i = i + 1;
    }
    if want < len {
        let last: Bits = if want > 0 {
            buf[want - 1]
        } else {
            single::ZERO
        };
        let mut k: usize = want;
        while k < len
            invariant
                got <= want <= k <= len <= buf@.len(),
                buf@.len() == old(buf)@.len(),
                last == (if want == 0 || got < want {
                    single::ZERO
                } else {
                    old(buf)@[want - 1]
                }),
                forall|j: int| 0 <= j < got || k <= j < buf@.len() ==> buf@[j] == old(buf)@[j],
                forall|j: int| got <= j < want ==> buf@[j] == single::ZERO,
                forall|j: int| want <= j < k ==> buf@[j] == last,
            decreases len - k,
        {
            buf[k] = last;
            k = k + 1;
        }
    }
    assert(buf@ =~= brought_to(old(buf)@, got as int, want as int, len as int));
}

/// Throws samples away until the ring holds no more than `target` (or, which
/// takes centuries, more has been thrown away than can be counted).
fn drain_to(c: &mut rtrb::Consumer<Bits>, target: usize)
    requires
        ring::in_order(*old(c)),
        ring::ready(*old(c)) >= target,
    ensures
        ring::in_order(*final(c)),
        ring::stream_out(*final(c)) == ring::stream_out(*old(c)),
        ring::depth(*final(c)) == ring::depth(*old(c)),
        ring::misses(*final(c)) == ring::misses(*old(c)),
        ring::taken(*old(c)).is_prefix_of(ring::taken(*final(c))),
        drained_to(*old(c), *final(c), target as int),
{
    let mut drained: u64 = 0;
    let mut done: bool = false;
    while !done && drained < u64::MAX
        invariant
            ring::in_order(*c),
            ring::stream_out(*c) == ring::stream_out(*old(c)),
            ring::depth(*c) == ring::depth(*old(c)),
            ring::misses(*c) == ring::misses(*old(c)),
            ring::taken(*old(c)).is_prefix_of(ring::taken(*c)),
            ring::taken(*c).len() == ring::taken(*old(c)).len() + drained,
            ring::ready(*c) + drained >= ring::ready(*old(c)),
            ring::ready(*c) >= target,
            done ==> ring::ready(*c) <= target,
        decreases u64::MAX - drained, (if done { 0int } else { 1int }),
    {
        if ring::slots(c) > target {
            let thrown: Option<Bits> = ring::pop(c);
            assert(thrown is Some);
            drained = drained + 1;
        } else {
            done = true;
        }
    }
}

/// Samples have been thrown away until no more than `target` were known to
/// wait, and no fewer either: at least what was over it before.
pub open spec fn drained_to(
    before: rtrb::Consumer<Bits>,
    after: rtrb::Consumer<Bits>,
    target: int,
) -> bool {
    let thrown = ring::taken(after).len() - ring::taken(before).len();
    &&& ring::ready(after) <= target || thrown >= u64::MAX
    &&& ring::ready(after) >= target
    &&& thrown >= ring::ready(before) - target || thrown >= u64::MAX
}

impl RenderHalf {
    /// What holds of every render half.
    pub open spec fn wf(&self) -> bool {
        &&& block_fits(self.typical_block as int)
        &&& ring::in_order(self.consumer)
    }

    /// Claims the one attempt at real-time priority: true at the first call,
    /// where priority is wanted at all.
    pub fn claim_promotion(&mut self) -> (due: bool)
        ensures
            due == (old(self).realtime && !old(self).promoted),
            *final(self) == (RenderHalf {
                promoted: old(self).promoted || due,
                ..*old(self)
            }),
    {
        if self.realtime && !self.promoted {
            self.promoted = true;
            true
        } else {
            false
        }
    }

    /// Makes the one attempt at real-time priority where it is due, and counts
    /// how it went. The answer is none where no attempt was due.
    pub fn promote(&mut self, promotions: &mut Promotions, metrics: &mut Metrics) -> (r: Option<bool>)
        ensures
            r is Some == (old(self).realtime && !old(self).promoted),
            *final(self) == (RenderHalf {
                promoted: old(self).promoted || r is Some,
                ..*old(self)
            }),
            r is None ==> *final(promotions) == *old(promotions) && *final(metrics) == *old(metrics),
            r is Some ==> final(promotions).asked@ == old(promotions).asked@.push(
                (old(self).hint_block, old(self).sample_rate),
            ),
            r matches Some(granted) ==> {
                &&& final(promotions).promoted == (old(promotions).promoted || granted)
                &&& *final(metrics) == old(metrics).with_promotion(granted)
                &&& old(self).sample_rate == 0 ==> !granted
            },
    {
        if self.claim_promotion() {
            let granted: bool = promotions.promote_audio_thread(self.hint_block, self.sample_rate);
            metrics.record_promotion(granted);
            Some(granted)
        } else {
            None
        }
    }

    /// Begins a render callback for `frames` samples: notes the gap since the
    /// last one, counts, and learns the typical block. Returns whether the
    /// typical block has changed, so that the target is to be set anew.
    pub fn begin(&mut self, frames: usize, now_ns: u64, metrics: &mut Metrics) -> (changed: bool)
        requires
            old(self).wf(),
            block_fits(frames as int),
        ensures
            final(self).wf(),
            *final(self) == (RenderHalf {
                last_call: Some(now_ns),
                typical_block: learned_block(
                    old(self).typical_block as int,
                    frames as int,
                ) as usize,
                ..*old(self)
            }),
            *final(metrics) == begun(
                *old(metrics),
                gap_us(old(self).last_call, now_ns),
                nominal_us(frames as int, old(self).sample_rate),
                frames as nat,
            ),
            changed == (final(self).typical_block != old(self).observed_block),
    {
        let gap: Option<u64> = gap_of(self.last_call, now_ns);
        let nominal: u64 = nominal_of(frames, self.sample_rate);
        if let Some(g) = gap {
            if metrics.render_gap_max_us < g {
                metrics.render_gap_max_us = g;
            }
            if nominal > 0 && g > nominal * 3 {
                metrics.render_stalls = metrics.render_stalls.wrapping_add(1);
            }
        }
        self.last_call = Some(now_ns);
        metrics.output_callbacks = metrics.output_callbacks.wrapping_add(1);
        metrics.output_frames = metrics.output_frames.wrapping_add(frames as u64);
        if self.typical_block == 0 {
            self.typical_block = frames;
        } else {
            self.typical_block = (self.typical_block * 15 + frames) / 16;
        }
        let short: u32 = frames as u32;
        if metrics.max_output_block < short {
            metrics.max_output_block = short;
        }
        self.typical_block != self.observed_block
    }

    /// The capture block, or the typical render block where it is not known.
    pub open spec fn capture_or_typical(&self) -> int {
        if self.capture_block > 0 {
            self.capture_block as int
        } else {
            self.typical_block as int
        }
    }

    /// Sets the target fill from the typical block: `scaled`, which is that
    /// block times the number of blocks to keep, and one capture block on top,
    /// so that capture may be late by one.
    pub fn retarget(&mut self, scaled: usize, metrics: &mut Metrics)
        requires
            old(self).wf(),
            scaled + old(self).capture_or_typical() <= usize::MAX,
        ensures
            final(self).wf(),
            *final(self) == (RenderHalf {
                observed_block: old(self).typical_block,
                target_fill: (scaled + old(self).capture_or_typical()) as usize,
                slack: metrics::most(old(self).typical_block as int / 2, 8) as usize,
                budget_us: budget_of(
                    old(self).typical_block as int,
                    old(self).sample_rate,
                ) as u64,
                ..*old(self)
            }),
            *final(metrics) == (Metrics {
                actual_output_block: old(self).typical_block as u32,
                budget_us: final(self).budget_us,
                ..*old(metrics)
            }),
            final(self).target_fill - scaled == old(self).capture_or_typical(),
            final(self).budget_us == budget_of(
                old(self).typical_block as int,
                old(self).sample_rate,
            ),
            old(self).capture_block > 0 ==> final(self).target_fill == scaled + old(self).capture_block,
            old(self).capture_block == 0 ==> final(self).target_fill == scaled + old(self).typical_block,
            8 <= final(self).slack,
            old(self).typical_block <= 2 * final(self).slack + 1,
            final(self).slack > 8 ==> 2 * final(self).slack <= old(self).typical_block,
    {
        self.observed_block = self.typical_block;
        let cap: usize = if self.capture_block > 0 {
            self.capture_block
        } else {
            self.typical_block
        };
        self.target_fill = scaled + cap;
        self.slack = if self.typical_block / 2 < 8 {
            8
        } else {
            self.typical_block / 2
        };
        self.budget_us = if self.sample_rate > 0 {
            let total: u64 = self.typical_block as u64 * 1_000_000;
            assert(0 <= total as int / (self.sample_rate as int) <= total) by (nonlinear_arith)
                requires
                    total >= 0,
                    self.sample_rate >= 1,
            ;
            total / (self.sample_rate as u64)
        } else if self.typical_block > 0 {
            u64::MAX
        } else {
            0
        };
        metrics.actual_output_block = self.typical_block as u32;
        metrics.budget_us = self.budget_us;
    }

    /// Looks at the ring. Output starts once the ring has reached its target;
    /// what is over the target by then is thrown away in one go, and no more than
    /// that: output starts on a full target. The extremes of the fill are forgotten.
    pub fn look(&mut self, metrics: &mut Metrics) -> (look: Look)
        requires
            old(self).wf(),
        ensures
            final(self).wf(),
            ring::ready(old(self).consumer) <= look.fill <= ring::depth(old(self).consumer),
            look.playing == (old(self).started || look.fill >= old(self).target_fill),
            look.just_started == (look.playing && !old(self).started),
            ring::stream_out(final(self).consumer) == ring::stream_out(old(self).consumer),
            ring::taken(old(self).consumer).is_prefix_of(ring::taken(final(self).consumer)),
            ring::depth(final(self).consumer) == ring::depth(old(self).consumer),
            ring::misses(final(self).consumer) == ring::misses(old(self).consumer),
            !look.just_started ==> ring::taken(final(self).consumer) == ring::taken(
                old(self).consumer,
            ) && ring::ready(final(self).consumer) == look.fill,
            look.just_started ==> ({
                let thrown = ring::taken(final(self).consumer).len() - ring::taken(
                    old(self).consumer,
                ).len();
                &&& ring::ready(final(self).consumer) <= old(self).target_fill || thrown >= u64::MAX
                &&& ring::ready(final(self).consumer) >= old(self).target_fill
                &&& thrown >= look.fill - old(self).target_fill
            }),
            *final(self) == (RenderHalf {
                consumer: final(self).consumer,
                started: look.playing,
                ..*old(self)
            }),
            *final(metrics) == seen_fill(*old(metrics), look.fill, look.just_started),
    {
        let fill: usize = ring::slots(&mut self.consumer);
        if !self.started {
            if fill < self.target_fill {
                metrics.record_ring_fill(fill as u32);
                return Look { fill, playing: false, just_started: false };
            }
            drain_to(&mut self.consumer, self.target_fill);
            self.started = true;
            metrics.reset_fill_extremes();
            metrics.record_ring_fill(fill as u32);
            return Look { fill, playing: true, just_started: true };
        }
        metrics.record_ring_fill(fill as u32);
        Look { fill, playing: true, just_started: false }
    }

    /// Decides how many samples to take for a block of `frames`. `dev` is how
    /// far the smoothed fill lies above the target; beyond `above` one sample
    /// more is taken, below `below` one less (unless the block holds only one),
    /// and the drift is counted.
    pub fn compensate(
        &self,
        frames: usize,
        smoothed: u32,
        dev: Bits,
        above: Bits,
        below: Bits,
        metrics: &mut Metrics,
    ) -> (want: usize)
        requires
            block_fits(frames as int),
        ensures
            want == metrics::least(
                frames + correction(frames, dev, above, below),
                self.pull_buf@.len() as int,
            ),
            single::less(above, dev) && frames < self.pull_buf@.len() ==> want == frames + 1,
            single::less(dev, below) && !single::less(above, dev) && 1 < frames
                <= self.pull_buf@.len() ==> want == frames - 1,
            !single::less(above, dev) && !single::less(dev, below) && frames
                <= self.pull_buf@.len() ==> want == frames,
            *final(metrics) == (Metrics {
                smoothed_fill: smoothed,
                drift_drops: if correction(frames, dev, above, below) > 0 {
                    old(metrics).drift_drops.wrapping_add(1)
                } else {
                    old(metrics).drift_drops
                },
                drift_inserts: if correction(frames, dev, above, below) < 0 {
                    old(metrics).drift_inserts.wrapping_add(1)
                } else {
                    old(metrics).drift_inserts
                },
                net_drift: if correction(frames, dev, above, below) > 0 {
                    old(metrics).net_drift.wrapping_add(1)
                } else if correction(frames, dev, above, below) < 0 {
                    old(metrics).net_drift.wrapping_sub(1)
                } else {
                    old(metrics).net_drift
                },
                ..*old(metrics)
            }),
    {
        metrics.smoothed_fill = smoothed;
        let mut want: usize = frames;
        if single::lt(above, dev) {
            want = want + 1;
            metrics.drift_drops = metrics.drift_drops.wrapping_add(1);
            metrics.net_drift = metrics.net_drift.wrapping_add(1);
        } else if single::lt(dev, below) && frames > 1 {
            want = want - 1;
            metrics.drift_inserts = metrics.drift_inserts.wrapping_add(1);
            metrics.net_drift = metrics.net_drift.wrapping_sub(1);
        }
        if self.pull_buf.len() < want {
            self.pull_buf.len()
        } else {
            want
        }
    }

    /// Takes up to `want` samples from the ring into the buffer and brings them
    /// to the block's length: what is missing is silence and counts as an
    /// xrun; where less than a block was wanted the last sample is repeated.
    pub fn fetch(&mut self, frames: usize, want: usize, metrics: &mut Metrics) -> (f: Fetched)
        requires
            old(self).wf(),
            want <= old(self).pull_buf@.len(),
        ensures
            final(self).wf(),
            f.got <= want,
            f.len == metrics::least(frames as int, old(self).pull_buf@.len() as int),
            ring::stream_out(final(self).consumer) == ring::stream_out(old(self).consumer),
            final(self).pull_buf@.len() == old(self).pull_buf@.len(),
            ring::taken(final(self).consumer) == ring::taken(old(self).consumer)
                + final(self).pull_buf@.take(f.got as int),
            ring::depth(final(self).consumer) == ring::depth(old(self).consumer),
            ring::misses(final(self).consumer) == ring::misses(old(self).consumer) + (if f.got
                < want {
                1nat
            } else {
                0nat
            }),
            ring::ready(final(self).consumer) + f.got >= ring::ready(old(self).consumer),
            want <= ring::ready(old(self).consumer) ==> f.got == want,
            forall|i: int|
                f.got <= i < metrics::most(want as int, f.len as int)
                    ==> #[trigger] final(self).pull_buf@[i] == (if i < want || want == 0 || f.got < want {
                    single::ZERO
                } else {
                    final(self).pull_buf@[want - 1]
                }),
            *final(self) == (RenderHalf {
                consumer: final(self).consumer,
                pull_buf: final(self).pull_buf,
                ..*old(self)
            }),
            *final(metrics) == (Metrics {
                xruns: if f.got < want {
                    old(metrics).xruns.wrapping_add(1)
                } else {
                    old(metrics).xruns
                },
                ..*old(metrics)
            }),
    {
        let got: usize = ring::pop_into(&mut self.consumer, &mut self.pull_buf, want);
        if got < want {
            metrics.xruns = metrics.xruns.wrapping_add(1);
        }
        let len: usize = if frames < self.pull_buf.len() {
            frames
        } else {
            self.pull_buf.len()
        };
        let ghost came = self.pull_buf@;
        bring_to(&mut self.pull_buf, got, want, len);
        assert(self.pull_buf@.take(got as int) =~= came.take(got as int));
        Fetched { got, len }
    }
}

/// By how many samples a block is made longer or shorter to follow the drift.
pub open spec fn correction(frames: usize, dev: Bits, above: Bits, below: Bits) -> int {
    if single::less(above, dev) {
        1
    } else if single::less(dev, below) && frames > 1 {
        -1
    } else {
        0
    }
}

/// The counters after a look at the ring.
pub open spec fn seen_fill(m: Metrics, fill: usize, just_started: bool) -> Metrics {
    let f = (fill as u32) as int;
    Metrics {
        ring_fill: fill as u32,
        ring_fill_max: metrics::most(
            if just_started {
                0
            } else {
                m.ring_fill_max as int
            },
            f,
        ) as u32,
        ring_fill_min: metrics::least(
            if just_started {
                u32::MAX as int
            } else {
                m.ring_fill_min as int
            },
            f,
        ) as u32,
        ..m
    }
}

/// After render has taken its block from a ring at its target, what is left
/// outlasts a capture that is late by one block, as long as at least one render
/// block is kept.
pub proof fn the_target_outlasts_a_late_capture(r: RenderHalf, scaled: int, target: int)
    requires
        scaled >= r.typical_block,
        target == scaled + r.capture_or_typical(),
    ensures
        target - r.typical_block >= r.capture_or_typical(),
{
}

/// The typical block stays between the blocks seen: an odd one cannot push it
/// past itself, and equal blocks leave it where it is.
pub proof fn the_typical_block_stays_between(typical: int, frames: int)
    requires
        typical > 0,
        frames >= 0,
    ensures
        learned_block(typical, typical) == typical,
        typical <= frames ==> typical <= learned_block(typical, frames) <= frames,
        frames <= typical ==> frames <= learned_block(typical, frames) <= typical,
{
}

/// Net drift is drops less inserts, as long as the counters have not wrapped.
pub open spec fn drift_balances(m: Metrics) -> bool {
    m.net_drift == m.drift_drops - m.drift_inserts
}

/// Compensation keeps the balance: each block drops one sample, repeats one, or
/// does neither, and the net drift follows.
pub proof fn compensation_keeps_the_balance(
    before: Metrics,
    after: Metrics,
    frames: usize,
    dev: Bits,
    above: Bits,
    below: Bits,
)
    requires
        drift_balances(before),
        before.drift_drops < i64::MAX,
        before.drift_inserts < i64::MAX,
        ({
            let c = correction(frames, dev, above, below);
            &&& after.drift_drops == (if c > 0 {
                before.drift_drops.wrapping_add(1)
            } else {
                before.drift_drops
            })
            &&& after.drift_inserts == (if c < 0 {
                before.drift_inserts.wrapping_add(1)
            } else {
                before.drift_inserts
            })
            &&& after.net_drift == (if c > 0 {
                before.net_drift.wrapping_add(1)
            } else if c < 0 {
                before.net_drift.wrapping_sub(1)
            } else {
                before.net_drift
            })
        }),
    ensures
        drift_balances(after),
        after.net_drift - before.net_drift == correction(frames, dev, above, below),
{
}

/// Compensation moves the fill towards its target. A ring that is too full has more taken
/// out of it than the block holds, as far as the buffer allows; one that is too empty has
/// less taken, where the block has a sample to spare; in between just the block is taken.
/// `dev` is how far the fill lies above its target, `above` and `below` are the limits.
pub proof fn compensation_moves_the_fill_towards_its_target(
    frames: usize,
    dev: Bits,
    above: Bits,
    below: Bits,
    room: int,
    want: int,
)
    requires
        !single::nan(dev),
        !single::nan(above),
        !single::nan(below),
        single::value(below) <= single::value(above),
        frames <= room,
        want == metrics::least(frames + correction(frames, dev, above, below), room),
    ensures
        single::value(dev) > single::value(above) && frames < room ==> want == frames + 1,
        single::value(dev) > single::value(above) ==> want >= frames,
        single::value(dev) < single::value(below) && frames > 1 ==> want == frames - 1,
        single::value(dev) < single::value(below) ==> want <= frames,
        single::value(below) <= single::value(dev) <= single::value(above) ==> want == frames,
{
}

/// A block lasts as long as its samples take at the sample rate, to the microsecond below;
/// and the time that render may take for a block is the time that the block lasts.
pub proof fn a_block_lasts_as_long_as_its_samples(frames: int, sample_rate: u32)
    requires
        frames >= 0,
        sample_rate > 0,
    ensures
        nominal_us(frames, sample_rate) * sample_rate <= frames * 1_000_000,
        frames * 1_000_000 < (nominal_us(frames, sample_rate) + 1) * sample_rate,
        budget_of(frames, sample_rate) == nominal_us(frames, sample_rate),
{
    let x = frames * 1_000_000;
    let r = sample_rate as int;
    vstd::arithmetic::div_mod::lemma_fundamental_div_mod(x, r);
    vstd::arithmetic::div_mod::lemma_mod_bound(x, r);
    assert((x / r) * r == r * (x / r)) by (nonlinear_arith);
    assert((x / r + 1) * r == r * (x / r) + r) by (nonlinear_arith);
}

/// A gap is the time between two calls, to the microsecond below, and zero where the clock
/// went backwards. The first call has none.
pub proof fn a_gap_is_the_time_between_two_calls(last: u64, now_ns: u64)
    ensures
        gap_us(None, now_ns) is None,
        gap_us(Some(last), now_ns) is Some,
        now_ns >= last ==> 1000 * gap_us(Some(last), now_ns)->0 <= now_ns - last < 1000 * (gap_us(
            Some(last),
            now_ns,
        )->0 + 1),
        now_ns <= last ==> gap_us(Some(last), now_ns)->0 == 0,
{
}

/// Calls in time are no stall, and up to three blocks of waiting are not either. Anything
/// longer is, and a longer gap is a stall where a shorter one was.
pub proof fn only_long_gaps_are_stalls(nominal: int, gap: int, longer: int)
    requires
        nominal > 0,
        gap <= longer,
    ensures
        !is_stall(nominal, nominal),
        !is_stall(3 * nominal, nominal),
        is_stall(3 * nominal + 1, nominal),
        is_stall(gap, nominal) ==> is_stall(longer, nominal),
{
}

/// A captured block counts once, with all its samples and those it lost, and nothing that
/// belongs to render moves. The longest gap is no shorter than this one or any before.
pub proof fn a_captured_block_is_counted(
    m: Metrics,
    gap: Option<int>,
    nominal: int,
    n: nat,
    dropped: int,
)
    requires
        gap matches Some(g) ==> 0 <= g <= u64::MAX,
        0 <= dropped,
        m.input_callbacks < u64::MAX,
        m.capture_stalls < u64::MAX,
        m.input_frames + n <= u64::MAX,
        m.overflows + dropped <= u64::MAX,
        n <= u32::MAX,
    ensures
        ({
            let after = captured(m, gap, nominal, n, dropped);
            &&& after.input_callbacks == m.input_callbacks + 1
            &&& after.input_frames == m.input_frames + n
            &&& after.overflows == m.overflows + dropped
            &&& after.actual_input_block >= n && after.actual_input_block >= m.actual_input_block
            &&& after.actual_input_block == n || after.actual_input_block == m.actual_input_block
            &&& after.capture_gap_max_us >= m.capture_gap_max_us
            &&& gap matches Some(g) ==> after.capture_gap_max_us >= g && (after.capture_gap_max_us
                == g || after.capture_gap_max_us == m.capture_gap_max_us)
            &&& gap is None ==> after.capture_gap_max_us == m.capture_gap_max_us
                && after.capture_stalls == m.capture_stalls
            &&& gap matches Some(g) ==> (after.capture_stalls == m.capture_stalls + 1 <==> nominal
                > 0 && g > 3 * nominal)
            &&& m.capture_stalls <= after.capture_stalls <= m.capture_stalls + 1
            &&& after.output_callbacks == m.output_callbacks
            &&& after.output_frames == m.output_frames
            &&& after.render_stalls == m.render_stalls
            &&& after.render_gap_max_us == m.render_gap_max_us
            &&& after.max_output_block == m.max_output_block
        }),
{
}

/// A render call counts once, with all its samples, and nothing that belongs to capture
/// moves. The longest gap is no shorter than this one or any before.
pub proof fn a_render_call_is_counted(m: Metrics, gap: Option<int>, nominal: int, n: nat)
    requires
        gap matches Some(g) ==> 0 <= g <= u64::MAX,
        m.output_callbacks < u64::MAX,
        m.render_stalls < u64::MAX,
        m.output_frames + n <= u64::MAX,
        n <= u32::MAX,
    ensures
        ({
            let after = begun(m, gap, nominal, n);
            &&& after.output_callbacks == m.output_callbacks + 1
            &&& after.output_frames == m.output_frames + n
            &&& after.max_output_block >= n && after.max_output_block >= m.max_output_block
            &&& after.max_output_block == n || after.max_output_block == m.max_output_block
            &&& after.render_gap_max_us >= m.render_gap_max_us
            &&& gap matches Some(g) ==> after.render_gap_max_us >= g && (after.render_gap_max_us
                == g || after.render_gap_max_us == m.render_gap_max_us)
            &&& gap is None ==> after.render_gap_max_us == m.render_gap_max_us
                && after.render_stalls == m.render_stalls
            &&& gap matches Some(g) ==> (after.render_stalls == m.render_stalls + 1 <==> nominal > 0
                && g > 3 * nominal)
            &&& m.render_stalls <= after.render_stalls <= m.render_stalls + 1
            &&& after.input_callbacks == m.input_callbacks
            &&& after.input_frames == m.input_frames
            &&& after.overflows == m.overflows
            &&& after.capture_stalls == m.capture_stalls
            &&& after.capture_gap_max_us == m.capture_gap_max_us
            &&& after.actual_input_block == m.actual_input_block
        }),
{
}

/// The first block is believed at once. After that an odd one moves the typical block by a
/// sixteenth of the difference and no more. One that is smaller, or larger by sixteen
/// samples or more, does move it.
pub proof fn an_odd_block_moves_the_typical_one_little(typical: int, frames: int)
    requires
        typical > 0,
        frames >= 0,
    ensures
        learned_block(0, frames) == frames,
        16 * vstd::math::abs(learned_block(typical, frames) - typical) <= vstd::math::abs(
            frames - typical,
        ) + 15,
        frames >= typical + 16 ==> learned_block(typical, frames) > typical,
        frames < typical ==> learned_block(typical, frames) < typical,
{
}

/// What came from the ring stays where it is. Where less came than was wanted, the rest is
/// silence; where all came and the block is longer, its last sample is held.
pub proof fn missing_samples_are_silence(buf: Seq<Bits>, got: int, want: int, len: int, i: int)
    requires
        0 <= got <= want,
        want <= buf.len(),
        len <= buf.len(),
        0 <= i < buf.len(),
    ensures
        brought_to(buf, got, want, len).len() == buf.len(),
        i < got ==> brought_to(buf, got, want, len)[i] == buf[i],
        got < want && got <= i && (i < want || i < len) ==> brought_to(buf, got, want, len)[i] == 0,
        got == want && 0 < want && want <= i < len ==> brought_to(buf, got, want, len)[i]
            == buf[want - 1],
        want == 0 && i < len ==> brought_to(buf, got, want, len)[i] == 0,
        i >= want && i >= len ==> brought_to(buf, got, want, len)[i] == buf[i],
{
}

/// The fill lies between the lowest and the highest seen. These only move apart, and begin
/// at the first fill.
pub proof fn the_fill_lies_between_its_extremes(m: Metrics, fill: usize, just_started: bool)
    requires
        fill <= u32::MAX,
    ensures
        ({
            let after = seen_fill(m, fill, just_started);
            &&& after.ring_fill == fill
            &&& after.ring_fill_min <= fill <= after.ring_fill_max
            &&& just_started ==> after.ring_fill_min == fill && after.ring_fill_max == fill
            &&& !just_started ==> after.ring_fill_min <= m.ring_fill_min && after.ring_fill_max
                >= m.ring_fill_max
            &&& !just_started ==> after.ring_fill_min == fill || after.ring_fill_min
                == m.ring_fill_min
            &&& !just_started ==> after.ring_fill_max == fill || after.ring_fill_max
                == m.ring_fill_max
        }),
{
}

/// The room that is kept for a late capture is a whole capture block, or a whole render
/// block while the capture block is not known.
pub proof fn a_whole_capture_block_is_kept(r: RenderHalf)
    ensures
        r.capture_or_typical() >= r.capture_block,
        r.capture_block > 0 ==> r.capture_or_typical() == r.capture_block,
        r.capture_block == 0 ==> r.capture_or_typical() == r.typical_block,
{
}

/// Compensation moves a block by one sample at most, and leaves at least one of a block that
/// has any.
pub proof fn compensation_leaves_a_sample(frames: usize, dev: Bits, above: Bits, below: Bits)
    ensures
        -1 <= correction(frames, dev, above, below) <= 1,
        frames >= 1 ==> frames + correction(frames, dev, above, below) >= 1,
        frames + correction(frames, dev, above, below) >= 0,
{
}

/// Without a sample rate a block that has samples lasts for ever, and one without lasts no
/// time, so that no callback is ever over its budget.
pub proof fn without_a_rate_no_budget_is_spent(typical: int)
    requires
        typical >= 0,
    ensures
        typical > 0 ==> budget_of(typical, 0) == u64::MAX,
        typical == 0 ==> budget_of(typical, 0) == 0,
{
}

} // verus!
