//! What the real-time chain shows of itself.
//!
//! Counters wrap round, as the counters of the audio threads do.
use crate::corrector::AnalysisFrame;
use crate::single::Bits;
use vstd::prelude::*;

verus! {

/// The counters.
#[derive(Clone, Copy, PartialEq, Eq, Structural, Debug)]
pub struct Metrics {
    /// Samples captured.
    pub input_frames: u64,
    /// Samples rendered.
    pub output_frames: u64,
    /// Capture callbacks.
    pub input_callbacks: u64,
    /// Render callbacks.
    pub output_callbacks: u64,
    /// Render callbacks that found too few samples.
    pub xruns: u64,
    /// Captured samples that found the ring full.
    pub overflows: u64,
    /// Samples that the synthesis did not finish in time.
    pub dsp_underruns: u64,
    /// Samples in the ring at the last look.
    pub ring_fill: u32,
    /// The fewest seen.
    pub ring_fill_min: u32,
    /// The most seen.
    pub ring_fill_max: u32,
    /// The smoothed fill, which drift is judged by.
    pub smoothed_fill: u32,
    /// Samples dropped because the input runs fast.
    pub drift_drops: u64,
    /// Samples repeated because the input runs slow.
    pub drift_inserts: u64,
    /// Drops less inserts: the clock drift itself.
    pub net_drift: i64,
    /// The largest capture block.
    pub actual_input_block: u32,
    /// The typical render block.
    pub actual_output_block: u32,
    /// The largest render block.
    pub max_output_block: u32,
    /// The time that one typical render block lasts.
    pub budget_us: u64,
    /// Audio threads that got real-time priority.
    pub rt_promotions: u32,
    /// Audio threads that did not get it.
    pub rt_failures: u32,
    /// The longest render callback.
    pub callback_max_us: u64,
    /// Render callbacks that took over half their time.
    pub callback_over_half_budget: u64,
    /// The longest gap between capture callbacks.
    pub capture_gap_max_us: u64,
    /// The longest gap between render callbacks.
    pub render_gap_max_us: u64,
    /// Capture gaps of over three blocks.
    pub capture_stalls: u64,
    /// Render gaps of over three blocks.
    pub render_stalls: u64,
    /// Time spent in render callbacks.
    pub callback_total_us: u64,
    /// Render callbacks timed.
    pub callback_samples: u64,
    /// The measured round trip; zero while there is none.
    pub measured_rt_us: u64,
    /// The fixed delay of the synthesis.
    pub algorithmic_us: u64,
    /// The pitch of the newest frame.
    pub f0_hz: Bits,
    /// Its distance from the note.
    pub cents_off: Bits,
    /// Its level.
    pub rms: Bits,
    /// The note.
    pub target_midi: i32,
    /// Is it voiced?
    pub voiced: bool,
    /// Did it clip?
    pub clipping: bool,
    /// The noise floor.
    pub noise_floor: Bits,
    /// Did it pass the noise gate?
    pub gate_open: bool,
}

/// A picture of the counters, for display.
#[derive(Clone, Copy, PartialEq, Eq, Structural, Debug)]
pub struct MetricsSnapshot {
    pub input_frames: u64,
    pub output_frames: u64,
    pub input_callbacks: u64,
    pub output_callbacks: u64,
    pub xruns: u64,
    pub overflows: u64,
    pub dsp_underruns: u64,
    pub ring_fill: u32,
    pub ring_fill_min: u32,
    pub ring_fill_max: u32,
    pub smoothed_fill: u32,
    pub drift_drops: u64,
    pub drift_inserts: u64,
    pub net_drift: i64,
    pub actual_input_block: u32,
    pub actual_output_block: u32,
    pub max_output_block: u32,
    pub budget_us: u64,
    pub rt_promotions: u32,
    pub rt_failures: u32,
    pub callback_max_us: u64,
    pub callback_over_half_budget: u64,
    pub callback_avg_us: u64,
    pub capture_gap_max_us: u64,
    pub render_gap_max_us: u64,
    pub capture_stalls: u64,
    pub render_stalls: u64,
    pub measured_rt_us: u64,
    pub algorithmic_us: u64,
    pub f0_hz: Bits,
    pub cents_off: Bits,
    pub rms: Bits,
    pub target_midi: i32,
    pub voiced: bool,
    pub clipping: bool,
    pub noise_floor: Bits,
    pub gate_open: bool,
}

/// Counters before anything has happened. No fill has been seen, so any fill
/// would be the lowest.
pub open spec fn fresh() -> Metrics {
    Metrics {
        input_frames: 0,
        output_frames: 0,
        input_callbacks: 0,
        output_callbacks: 0,
        xruns: 0,
        overflows: 0,
        dsp_underruns: 0,
        ring_fill: 0,
        ring_fill_min: u32::MAX,
        ring_fill_max: 0,
        smoothed_fill: 0,
        drift_drops: 0,
        drift_inserts: 0,
        net_drift: 0,
        actual_input_block: 0,
        actual_output_block: 0,
        max_output_block: 0,
        budget_us: 0,
        rt_promotions: 0,
        rt_failures: 0,
        callback_max_us: 0,
        callback_over_half_budget: 0,
        capture_gap_max_us: 0,
        render_gap_max_us: 0,
        capture_stalls: 0,
        render_stalls: 0,
        callback_total_us: 0,
        callback_samples: 0,
        measured_rt_us: 0,
        algorithmic_us: 0,
        f0_hz: 0,
        cents_off: 0,
        rms: 0,
        target_midi: 0,
        voiced: false,
        clipping: false,
        noise_floor: 0,
        gate_open: false,
    }
}

/// The larger of two counts.
pub open spec fn most(a: int, b: int) -> int {
    if a < b {
        b
    } else {
        a
    }
}

/// The smaller of two counts.
pub open spec fn least(a: int, b: int) -> int {
    if b < a {
        b
    } else {
        a
    }
}

impl Metrics {
    /// Counters before anything has happened.
    pub fn new() -> (m: Metrics)
        ensures
            m == fresh(),
    {
        Metrics {
            input_frames: 0,
            output_frames: 0,
            input_callbacks: 0,
            output_callbacks: 0,
            xruns: 0,
            overflows: 0,
            dsp_underruns: 0,
            ring_fill: 0,
            ring_fill_min: u32::MAX,
            ring_fill_max: 0,
            smoothed_fill: 0,
            drift_drops: 0,
            drift_inserts: 0,
            net_drift: 0,
            actual_input_block: 0,
            actual_output_block: 0,
            max_output_block: 0,
            budget_us: 0,
            rt_promotions: 0,
            rt_failures: 0,
            callback_max_us: 0,
            callback_over_half_budget: 0,
            capture_gap_max_us: 0,
            render_gap_max_us: 0,
            capture_stalls: 0,
            render_stalls: 0,
            callback_total_us: 0,
            callback_samples: 0,
            measured_rt_us: 0,
            algorithmic_us: 0,
            f0_hz: 0,
            cents_off: 0,
            rms: 0,
            target_midi: 0,
            voiced: false,
            clipping: false,
            noise_floor: 0,
            gate_open: false,
        }
    }

    /// Notes how many samples the ring holds.
    pub fn record_ring_fill(&mut self, fill: u32)
        ensures
            *final(self) == (Metrics {
                ring_fill: fill,
                ring_fill_max: most(old(self).ring_fill_max as int, fill as int) as u32,
                ring_fill_min: least(old(self).ring_fill_min as int, fill as int) as u32,
                ..*old(self)
            }),
    {
        self.ring_fill = fill;
        if self.ring_fill_max < fill {
            self.ring_fill_max = fill;
        }
        if fill < self.ring_fill_min {
            self.ring_fill_min = fill;
        }
    }

    /// Notes how long a render callback took, and whether that was over half of
    /// `budget_us`.
    pub fn record_callback(&mut self, elapsed_us: u64, budget_us: u64)
        requires
            elapsed_us * 2 <= u64::MAX,
        ensures
            *final(self) == (Metrics {
                callback_max_us: most(old(self).callback_max_us as int, elapsed_us as int) as u64,
                callback_total_us: old(self).callback_total_us.wrapping_add(elapsed_us),
                callback_samples: old(self).callback_samples.wrapping_add(1),
                callback_over_half_budget: if budget_us > 0 && elapsed_us * 2 > budget_us {
                    old(self).callback_over_half_budget.wrapping_add(1)
                } else {
                    old(self).callback_over_half_budget
                },
                ..*old(self)
            }),
            elapsed_us + elapsed_us <= budget_us ==> final(self).callback_over_half_budget
                == old(self).callback_over_half_budget,
            0 < budget_us <= elapsed_us ==> final(self).callback_over_half_budget
                == old(self).callback_over_half_budget.wrapping_add(1),
            final(self).callback_max_us >= elapsed_us,
            final(self).callback_max_us >= old(self).callback_max_us,
    {
        if self.callback_max_us < elapsed_us {
            self.callback_max_us = elapsed_us;
        }
        self.callback_total_us = self.callback_total_us.wrapping_add(elapsed_us);
        self.callback_samples = self.callback_samples.wrapping_add(1);
        if budget_us > 0 && elapsed_us * 2 > budget_us {
            self.callback_over_half_budget = self.callback_over_half_budget.wrapping_add(1);
        }
    }

    /// Forgets the extremes of the fill: those of the start say nothing about
    /// the running state.
    pub fn reset_fill_extremes(&mut self)
        ensures
            *final(self) == (Metrics { ring_fill_min: u32::MAX, ring_fill_max: 0, ..*old(self) }),
    {
        self.ring_fill_min = u32::MAX;
        self.ring_fill_max = 0;
    }

    /// Notes the newest analysis frame.
    pub fn record_frame(&mut self, f: &AnalysisFrame)
        ensures
            *final(self) == (Metrics {
                f0_hz: f.f0_hz,
                cents_off: f.cents_off,
                rms: f.rms,
                target_midi: f.target_midi,
                voiced: f.is_voiced,
                clipping: f.clipping,
                noise_floor: f.noise_floor,
                gate_open: f.gate_open,
                ..*old(self)
            }),
    {
        self.f0_hz = f.f0_hz;
        self.cents_off = f.cents_off;
        self.rms = f.rms;
        self.target_midi = f.target_midi;
        self.voiced = f.is_voiced;
        self.clipping = f.clipping;
        self.noise_floor = f.noise_floor;
        self.gate_open = f.gate_open;
    }

    /// The counters after an attempt at real-time priority.
    pub open spec fn with_promotion(self, promoted: bool) -> Metrics {
        if promoted {
            Metrics { rt_promotions: self.rt_promotions.wrapping_add(1), ..self }
        } else {
            Metrics { rt_failures: self.rt_failures.wrapping_add(1), ..self }
        }
    }

    /// Notes whether an audio thread got real-time priority.
    pub fn record_promotion(&mut self, promoted: bool)
        ensures
            *final(self) == old(self).with_promotion(promoted),
    {
        if promoted {
            self.rt_promotions = self.rt_promotions.wrapping_add(1);
        } else {
            self.rt_failures = self.rt_failures.wrapping_add(1);
        }
    }

    /// A picture of the counters. Where no fill has been seen the lowest shows
    /// as zero; the mean callback is zero before the first one.
    pub fn snapshot(&self) -> (s: MetricsSnapshot)
        ensures
            s == (MetricsSnapshot {
                input_frames: self.input_frames,
                output_frames: self.output_frames,
                input_callbacks: self.input_callbacks,
                output_callbacks: self.output_callbacks,
                xruns: self.xruns,
                overflows: self.overflows,
                dsp_underruns: self.dsp_underruns,
                ring_fill: self.ring_fill,
                ring_fill_min: if self.ring_fill_min == u32::MAX {
                    0
                } else {
                    self.ring_fill_min
                },
                ring_fill_max: self.ring_fill_max,
                smoothed_fill: self.smoothed_fill,
                drift_drops: self.drift_drops,
                drift_inserts: self.drift_inserts,
                net_drift: self.net_drift,
                actual_input_block: self.actual_input_block,
                actual_output_block: self.actual_output_block,
                max_output_block: self.max_output_block,
                budget_us: self.budget_us,
                rt_promotions: self.rt_promotions,
                rt_failures: self.rt_failures,
                callback_max_us: self.callback_max_us,
                callback_over_half_budget: self.callback_over_half_budget,
                callback_avg_us: if self.callback_samples > 0 {
                    self.callback_total_us / self.callback_samples
                } else {
                    0
                },
                capture_gap_max_us: self.capture_gap_max_us,
                render_gap_max_us: self.render_gap_max_us,
                capture_stalls: self.capture_stalls,
                render_stalls: self.render_stalls,
                measured_rt_us: self.measured_rt_us,
                algorithmic_us: self.algorithmic_us,
                f0_hz: self.f0_hz,
                cents_off: self.cents_off,
                rms: self.rms,
                target_midi: self.target_midi,
                voiced: self.voiced,
                clipping: self.clipping,
                noise_floor: self.noise_floor,
                gate_open: self.gate_open,
            }),
    {
        MetricsSnapshot {
            input_frames: self.input_frames,
            output_frames: self.output_frames,
            input_callbacks: self.input_callbacks,
            output_callbacks: self.output_callbacks,
            xruns: self.xruns,
            overflows: self.overflows,
            dsp_underruns: self.dsp_underruns,
            ring_fill: self.ring_fill,
            ring_fill_min: if self.ring_fill_min == u32::MAX {
                0
            } else {
                self.ring_fill_min
            },
            ring_fill_max: self.ring_fill_max,
            smoothed_fill: self.smoothed_fill,
            drift_drops: self.drift_drops,
            drift_inserts: self.drift_inserts,
            net_drift: self.net_drift,
            actual_input_block: self.actual_input_block,
            actual_output_block: self.actual_output_block,
            max_output_block: self.max_output_block,
            budget_us: self.budget_us,
            rt_promotions: self.rt_promotions,
            rt_failures: self.rt_failures,
            callback_max_us: self.callback_max_us,
            callback_over_half_budget: self.callback_over_half_budget,
            callback_avg_us: if self.callback_samples > 0 {
                self.callback_total_us / self.callback_samples
            } else {
                0
            },
            capture_gap_max_us: self.capture_gap_max_us,
            render_gap_max_us: self.render_gap_max_us,
            capture_stalls: self.capture_stalls,
            render_stalls: self.render_stalls,
            measured_rt_us: self.measured_rt_us,
            algorithmic_us: self.algorithmic_us,
            f0_hz: self.f0_hz,
            cents_off: self.cents_off,
            rms: self.rms,
            target_midi: self.target_midi,
            voiced: self.voiced,
            clipping: self.clipping,
            noise_floor: self.noise_floor,
            gate_open: self.gate_open,
        }
    }

    /// Starts a new measurement: counts and extremes go back, what describes
    /// the device and the newest frame stays.
    pub fn reset(&mut self)
        ensures
            *final(self) == (Metrics {
                xruns: 0,
                overflows: 0,
                dsp_underruns: 0,
                drift_drops: 0,
                drift_inserts: 0,
                net_drift: 0,
                callback_max_us: 0,
                callback_over_half_budget: 0,
                callback_total_us: 0,
                callback_samples: 0,
                capture_gap_max_us: 0,
                render_gap_max_us: 0,
                capture_stalls: 0,
                render_stalls: 0,
                ring_fill_min: u32::MAX,
                ring_fill_max: 0,
                ..*old(self)
            }),
    {
        self.xruns = 0;
        self.overflows = 0;
        self.dsp_underruns = 0;
        self.drift_drops = 0;
        self.drift_inserts = 0;
        self.net_drift = 0;
        self.callback_max_us = 0;
        self.callback_over_half_budget = 0;
        self.callback_total_us = 0;
        self.callback_samples = 0;
        self.capture_gap_max_us = 0;
        self.render_gap_max_us = 0;
        self.capture_stalls = 0;
        self.render_stalls = 0;
        self.ring_fill_min = u32::MAX;
        self.ring_fill_max = 0;
    }
}

impl MetricsSnapshot {
    /// How far apart the lowest and the highest fill lie.
    pub fn ring_fill_span(&self) -> (span: u32)
        ensures
            span == most(self.ring_fill_max - self.ring_fill_min, 0),
    {
        self.ring_fill_max.saturating_sub(self.ring_fill_min)
    }

    /// Did the chain run without a single drop-out?
    pub fn is_healthy(&self) -> (r: bool)
        ensures
            r == (self.xruns == 0 && self.overflows == 0 && self.dsp_underruns == 0),
    {
        self.xruns == 0 && self.overflows == 0 && self.dsp_underruns == 0
    }
}

/// The larger of two counts is one of them and no smaller than either, and the smaller one
/// no larger.
pub proof fn the_larger_and_the_smaller_count(a: int, b: int)
    ensures
        most(a, b) >= a && most(a, b) >= b && (most(a, b) == a || most(a, b) == b),
        least(a, b) <= a && least(a, b) <= b && (least(a, b) == a || least(a, b) == b),
        most(a, b) + least(a, b) == a + b,
{
}

/// Every attempt at real-time priority counts once, as granted or as refused, and touches no
/// other counter.
pub proof fn every_promotion_counts_once(m: Metrics)
    requires
        m.rt_promotions < u32::MAX,
        m.rt_failures < u32::MAX,
    ensures
        m.with_promotion(true).rt_promotions == m.rt_promotions + 1,
        m.with_promotion(true).rt_failures == m.rt_failures,
        m.with_promotion(false).rt_failures == m.rt_failures + 1,
        m.with_promotion(false).rt_promotions == m.rt_promotions,
        (Metrics { rt_promotions: m.rt_promotions, ..m.with_promotion(true) }) == m,
        (Metrics { rt_failures: m.rt_failures, ..m.with_promotion(false) }) == m,
{
}

} // verus!
