//! The signal path end to end: the library's decisions with the arithmetic that
//! they ask for around them.
//!
//! The first part of this file is that arithmetic.
use std::f32::consts::{LN_10, TAU};

use wego_voice::corrector;
use wego_voice::f0eval::{next_noise, Frame, Tally};
use wego_voice::fft;
use wego_voice::noise;
use wego_voice::offline::{self, Octaves, PitchFrame, PitchTrack, RecorrectConfig, TrackStep, HOP};
use wego_voice::psola;
use wego_voice::scale::{self, Key, ScaleKind, REACH};
use wego_voice::sorting;
use wego_voice::tilt;
use wego_voice::timbre::{
    self, TimbreMatch, TimbreProfile, BINS_PER_OCT, FRAME, FRAME_HOP, MAX_SHIFT_BINS,
};
use wego_voice::yin;

/// The number that a bit pattern stands for.
pub fn float(b: u32) -> f32 {
    f32::from_bits(b)
}

// ───────────────────────── transform ─────────────────────────

/// A complex number.
#[derive(Debug, Clone, Copy, Default, PartialEq)]
pub struct C {
    pub re: f32,
    pub im: f32,
}

impl C {
    pub const fn new(re: f32, im: f32) -> Self {
        Self { re, im }
    }

    pub fn conj(self) -> Self {
        Self::new(self.re, -self.im)
    }

    pub fn plus(self, o: Self) -> Self {
        Self::new(self.re + o.re, self.im + o.im)
    }

    pub fn minus(self, o: Self) -> Self {
        Self::new(self.re - o.re, self.im - o.im)
    }

    pub fn times(self, o: Self) -> Self {
        Self::new(self.re * o.re - self.im * o.im, self.re * o.im + self.im * o.re)
    }

    pub fn scale(self, k: f32) -> Self {
        Self::new(self.re * k, self.im * k)
    }
}

/// A radix-2 transform.
pub struct Fft {
    plan: fft::Fft,
    /// `exp(-2 pi i j / n)` for `j` below `n / 2`.
    twiddles: Vec<C>,
}

impl Fft {
    /// `n` must be a power of two and at least two.
    pub fn new(n: usize) -> Self {
        assert!(n >= 2 && n.is_power_of_two(), "FFT 长度必须是 ≥2 的 2 的幂");
        let bits = n.trailing_zeros();
        assert!(bits < 32, "FFT 长度过大");
        let twiddles = (0..n / 2)
            .map(|j| {
                let a = -TAU * j as f32 / n as f32;
                C::new(a.cos(), a.sin())
            })
            .collect();
        Self { plan: fft::Fft::new(bits), twiddles }
    }

    pub fn len(&self) -> usize {
        self.plan.len()
    }

    pub fn is_empty(&self) -> bool {
        self.plan.is_empty()
    }

    /// Transforms in place.
    pub fn forward(&self, buf: &mut [C]) {
        let n = self.len();
        assert_eq!(buf.len(), n);
        for i in 0..n {
            if let Some(j) = self.plan.swap_with(i) {
                buf.swap(i, j);
            }
        }
        let mut half = 1usize;
        while 2 * half <= n {
            for t in 0..n / 2 {
                let b = self.plan.butterfly(half, t);
                let x = buf[b.low];
                let y = buf[b.high].times(self.twiddles[b.twiddle]);
                buf[b.low] = x.plus(y);
                buf[b.high] = x.minus(y);
            }
            half *= 2;
        }
    }

    /// Transforms back, with the factor `1 / n`.
    pub fn inverse(&self, buf: &mut [C]) {
        for v in buf.iter_mut() {
            *v = v.conj();
        }
        self.forward(buf);
        let k = 1.0 / self.len() as f32;
        for v in buf.iter_mut() {
            *v = v.conj().scale(k);
        }
    }

    /// `out[tau]` becomes the sum of `a[j] * b[j + tau]`. Both go through one
    /// transform, one as the real and one as the imaginary part.
    pub fn correlate(&self, a: &[f32], b: &[f32], out: &mut [f32], scratch: &mut [C], spec: &mut [C]) {
        let n = self.len();
        assert!(a.len() + out.len() <= n, "n 不足，循环卷积会污染结果");
        assert_eq!(scratch.len(), n);
        assert_eq!(spec.len(), n);
        for i in 0..n {
            scratch[i] = C::new(
                a.get(i).copied().unwrap_or(0.0),
                b.get(i).copied().unwrap_or(0.0),
            );
        }
        self.forward(scratch);
        for k in 0..n {
            let zk = scratch[k];
            let zm = scratch[self.plan.mirror(k)].conj();
            let ak = zk.plus(zm).scale(0.5);
            let d = zk.minus(zm).scale(0.5);
            let bk = C::new(d.im, -d.re);
            spec[k] = ak.conj().times(bk);
        }
        self.inverse(spec);
        for (tau, slot) in out.iter_mut().enumerate() {
            *slot = spec[tau].re;
        }
    }
}

// ───────────────────────── pitch detection ─────────────────────────

#[derive(Debug, Clone, Copy)]
pub struct YinConfig {
    pub sample_rate: f32,
    pub f0_min: f32,
    pub f0_max: f32,
    pub threshold: f32,
    pub silence_rms: f32,
}

impl Default for YinConfig {
    fn default() -> Self {
        Self {
            sample_rate: 48_000.0,
            f0_min: 70.0,
            f0_max: 1100.0,
            threshold: 0.15,
            silence_rms: 1e-4,
        }
    }
}

/// The difference function of a pitch detector.
pub struct Yin {
    cfg: YinConfig,
    pub shape: yin::Yin,
    pub diff: Vec<f32>,
    /// The normalised difference by lag, as bit patterns.
    cmnd: Vec<u32>,
    fft: Fft,
    corr: Vec<f32>,
    scratch: Vec<C>,
    spec: Vec<C>,
}

/// Tolerance with which a shorter lag is taken for the period.
const TOLERANCE: f32 = 1.6;

impl Yin {
    pub fn new(cfg: YinConfig) -> Self {
        assert!(cfg.f0_min > 0.0 && cfg.f0_max > cfg.f0_min);
        let tau_min = (cfg.sample_rate / cfg.f0_max).floor().max(2.0) as usize;
        let tau_max = (cfg.sample_rate / cfg.f0_min).ceil() as usize;
        assert!(tau_min <= tau_max && tau_max <= usize::MAX / 8);
        let shape = yin::Yin::new(tau_min, tau_max);
        let n = shape.fft_len();
        Self {
            cfg,
            shape,
            diff: vec![0.0; tau_max + 1],
            cmnd: vec![0; tau_max + 1],
            fft: Fft::new(n),
            corr: vec![0.0; tau_max + 1],
            scratch: vec![C::default(); n],
            spec: vec![C::default(); n],
        }
    }

    pub fn fft_len(&self) -> usize {
        self.fft.len()
    }

    pub fn required_len(&self) -> usize {
        self.shape.required_len()
    }

    /// Analyses the first `required_len()` samples.
    pub fn analyze(&mut self, x: &[f32]) -> yin::PitchEstimate {
        let need = self.required_len();
        let w = self.shape.window;
        let tau_max = self.shape.tau_max();

        let mut energy = 0.0f32;
        for &s in x.iter().take(w) {
            energy += s * s;
        }
        let rms = (energy / w as f32).sqrt();
        if !self.shape.worth_analyzing(x.len(), rms.to_bits(), self.cfg.silence_rms.to_bits()) {
            return yin::PitchEstimate::unvoiced();
        }

        self.fft.correlate(&x[..w], &x[..need], &mut self.corr, &mut self.scratch, &mut self.spec);
        let p0 = energy;
        let mut p_tau = energy;
        self.diff[0] = 0.0;
        for tau in 1..=tau_max {
            let leaving = x[tau - 1];
            let entering = x[tau - 1 + w];
            p_tau += entering * entering - leaving * leaving;
            self.diff[tau] = (p0 + p_tau - 2.0 * self.corr[tau]).max(0.0);
        }

        self.cmnd[0] = 1.0f32.to_bits();
        let mut running = 0.0f32;
        for tau in 1..=tau_max {
            running += self.diff[tau];
            let v = if running > 0.0 { self.diff[tau] * tau as f32 / running } else { 1.0 };
            self.cmnd[tau] = v.to_bits();
        }

        let Some(picked) = self.shape.pick(&self.cmnd, self.cfg.threshold.to_bits()) else {
            return yin::PitchEstimate::unvoiced();
        };
        let limit = float(self.cmnd[picked]) * TOLERANCE;
        let tau = self.shape.undo_subharmonic(&self.cmnd, picked, limit.to_bits());
        let f0 = self.cfg.sample_rate / self.refined(tau);
        self.shape.estimate(&self.cmnd, tau, f0.to_bits(), (self.cfg.threshold * 2.0).to_bits())
    }

    /// The lag between samples, from a parabola through three values.
    fn refined(&self, tau: usize) -> f32 {
        let Some((y0, y1, y2)) = self.shape.neighbours(&self.cmnd, tau) else {
            return tau as f32;
        };
        let (y0, y1, y2) = (float(y0), float(y1), float(y2));
        let denom = y0 - 2.0 * y1 + y2;
        if denom.abs() < 1e-12 {
            return tau as f32;
        }
        let offset = 0.5 * (y0 - y2) / denom;
        if offset.abs() > 1.0 {
            tau as f32
        } else {
            tau as f32 + offset
        }
    }
}

// ───────────────────────── overlap and add ─────────────────────────

#[derive(Debug, Clone, Copy)]
pub struct PsolaConfig {
    pub sample_rate: f32,
    pub latency_f0_floor: f32,
    pub f0_max: f32,
}

impl Default for PsolaConfig {
    fn default() -> Self {
        Self { sample_rate: 48_000.0, latency_f0_floor: 100.0, f0_max: 1100.0 }
    }
}

/// The scheduler for a configuration.
pub fn psola_plan(cfg: &PsolaConfig) -> psola::Psola {
    let max_period = (cfg.sample_rate / cfg.latency_f0_floor).ceil() as usize;
    let min_period = (cfg.sample_rate / cfg.f0_max).floor().max(2.0) as usize;
    assert!(max_period >= 1 && max_period <= usize::MAX / 16, "PSOLA 周期超出范围");
    psola::Psola::new(max_period, min_period)
}

/// The period of a pitch, in samples.
pub fn period_of(sample_rate: f32, f0_hz: f32) -> usize {
    (sample_rate / f0_hz).round() as usize
}

/// The adding of windowed grains.
pub struct Ola {
    accum: Vec<f32>,
    hann: Vec<f32>,
    raw: Vec<u32>,
    grains: Vec<psola::Grain>,
    /// Input samples taken in so far.
    taken: u64,
}

impl Ola {
    pub fn new(plan: &psola::Psola) -> Self {
        let hann = (0..psola::WINDOW_TABLE)
            .map(|i| {
                let t = i as f32 / (psola::WINDOW_TABLE - 1) as f32;
                0.5 * (1.0 - (TAU * t).cos())
            })
            .collect();
        Self {
            accum: vec![0.0; plan.ring_len()],
            hann,
            raw: Vec::with_capacity(8192),
            grains: Vec::with_capacity(256),
            taken: 0,
        }
    }

    /// Processes a block.
    pub fn process(&mut self, plan: &mut psola::Psola, input: &[f32], output: &mut [f32]) {
        let n = input.len().min(output.len());
        let room = u64::MAX - 2 * plan.max_period() as u64;
        assert!(self.taken <= room && n as u64 <= room - self.taken, "样本计数溢出");
        self.taken += n as u64;
        self.raw.clear();
        self.raw.extend(input[..n].iter().map(|s| s.to_bits()));

        let t_out = (plan.period() as f32 / float(plan.ratio())).round() as usize;
        let mut grains = std::mem::take(&mut self.grains);
        let step = plan.process(&self.raw, t_out, &mut grains);
        for g in &grains {
            self.add(plan, g, step.floor);
        }
        self.grains = grains;
        for a in step.through_from..step.through_to {
            let i = plan.slot(a);
            self.accum[i] += float(plan.tap(a, 0));
        }
        if step.silent {
            output[..n].fill(0.0);
            return;
        }
        for a in 0..step.clear_to {
            let i = plan.slot(a);
            self.accum[i] = 0.0;
        }
        for (k, slot) in output.iter_mut().take(n).enumerate() {
            let i = plan.slot(step.read_from + k as u64);
            *slot = if k < step.ready { self.accum[i] } else { 0.0 };
            self.accum[i] = 0.0;
        }
    }

    /// Adds one grain. Shifting the formants stretches what is read, not where it
    /// goes, so that the pitch stays.
    fn add(&mut self, plan: &psola::Psola, g: &psola::Grain, floor: u64) {
        let t = g.t;
        let alpha = float(plan.formant()).min(plan.max_period() as f32 / t.max(1) as f32);
        let unity = (alpha - 1.0).abs() < 1e-4;
        for i in 0..2 * t {
            let Some(to) = psola::grain_target(g, i, floor) else {
                continue;
            };
            let w = self.hann[psola::window_index(i, t)];
            let v = if unity {
                float(plan.tap(g.src, i as i64 - t as i64)) * w
            } else {
                let u = (i as f32 - t as f32) * alpha;
                let base = u.floor();
                let frac = u - base;
                let a0 = float(plan.tap(g.src, base as i64));
                let a1 = float(plan.tap(g.src, base as i64 + 1));
                (a0 + (a1 - a0) * frac) * w
            };
            let di = plan.slot(to);
            self.accum[di] += v;
        }
    }
}

/// A pitch shifter on its own.
pub struct Psola {
    cfg: PsolaConfig,
    pub plan: psola::Psola,
    ola: Ola,
}

impl Psola {
    pub fn new(cfg: PsolaConfig) -> Self {
        let plan = psola_plan(&cfg);
        let ola = Ola::new(&plan);
        Self { cfg, plan, ola }
    }

    pub fn latency_samples(&self) -> u64 {
        self.plan.latency_samples()
    }

    pub fn latency_ms(&self) -> f32 {
        self.latency_samples() as f32 * 1000.0 / self.cfg.sample_rate
    }

    pub fn set_pitch(&mut self, f0_hz: f32, voiced: bool) {
        let min_period = (self.cfg.sample_rate / self.cfg.f0_max).floor().max(2.0) as usize;
        assert!(!voiced || min_period <= self.plan.max_period(), "最短周期长于最长周期");
        let period = if f0_hz > 0.0 { period_of(self.cfg.sample_rate, f0_hz) } else { 0 };
        self.plan.set_pitch(f0_hz.to_bits(), period, voiced);
    }

    pub fn set_ratio(&mut self, ratio: f32) {
        self.plan.set_ratio(ratio.to_bits());
    }

    pub fn set_formant(&mut self, f: f32) {
        self.plan.set_formant(f.to_bits());
    }

    pub fn underruns(&self) -> u64 {
        self.plan.underruns()
    }

    pub fn process(&mut self, input: &[f32], output: &mut [f32]) {
        self.ola.process(&mut self.plan, input, output);
    }
}

// ───────────────────────── tilt ─────────────────────────

const PIVOT_HZ: [f32; 2] = [622.0, 1934.0];
const BAND_OCTAVES: f32 = 4.907;
/// Measured, not derived: what the analysis finds of what is set here.
const CALIBRATION: f32 = 1.30;

/// The filter behind the tilt.
#[derive(Debug, Clone)]
pub struct TiltFilter {
    a: [f32; 2],
    g_lo: f32,
    g_hi: f32,
    lp: [f32; 2],
}

impl TiltFilter {
    pub fn new(sample_rate: f32) -> Self {
        let sr = sample_rate.max(1.0);
        let coef = |hz: f32| (1.0 - (-TAU * hz / sr).exp()).clamp(1e-6, 0.999);
        Self { a: [coef(PIVOT_HZ[0]), coef(PIVOT_HZ[1])], g_lo: 1.0, g_hi: 1.0, lp: [0.0; 2] }
    }

    /// Takes a new setting over.
    pub fn retune(&mut self, db_per_oct: f32) {
        let total_db = db_per_oct * BAND_OCTAVES * CALIBRATION / 2.0;
        self.g_lo = 10f32.powf(-total_db / 40.0);
        self.g_hi = 10f32.powf(total_db / 40.0);
    }

    pub fn reset(&mut self) {
        self.lp = [0.0; 2];
    }

    pub fn process(&mut self, buf: &mut [f32]) {
        for s in buf.iter_mut() {
            let mut v = *s;
            for k in 0..2 {
                self.lp[k] += self.a[k] * (v - self.lp[k]);
                let hp = v - self.lp[k];
                v = self.g_lo * self.lp[k] + self.g_hi * hp;
            }
            *s = v;
        }
    }
}

/// A tilt on its own.
pub struct Tilt {
    setting: tilt::Tilt,
    filter: TiltFilter,
}

impl Tilt {
    pub fn new(sample_rate: f32) -> Self {
        Self { setting: tilt::Tilt::new(), filter: TiltFilter::new(sample_rate) }
    }

    pub fn set_db_per_oct(&mut self, s: f32) {
        if self.setting.set_db_per_oct(s.to_bits()) {
            self.filter.retune(self.db_per_oct());
        }
    }

    pub fn db_per_oct(&self) -> f32 {
        float(self.setting.db_per_oct())
    }

    /// Forgets what has been filtered so far, for a new device or a new start.
    pub fn reset(&mut self) {
        self.filter.reset();
    }

    pub fn process(&mut self, buf: &mut [f32]) {
        if !self.setting.bypass {
            self.filter.process(buf);
        }
    }
}

// ───────────────────────── scale ─────────────────────────

pub fn hz_to_midi(hz: f32) -> f32 {
    69.0 + 12.0 * (hz / 440.0).log2()
}

pub fn midi_to_hz(midi: f32) -> f32 {
    440.0 * ((midi - 69.0) / 12.0).exp2()
}

pub fn cents_between(a: f32, b: f32) -> f32 {
    1200.0 * (a / b).log2()
}

/// The note of the key nearest to a pitch.
pub fn nearest_in_scale(key: Key, midi_f: f32) -> i32 {
    let center = midi_f.round() as i32;
    assert!(
        center >= i32::MIN + REACH && center <= i32::MAX - REACH,
        "音高超出范围"
    );
    let mut away = [0u32; 13];
    let mut edge = [0u32; 13];
    for k in 0..13usize {
        let d = ((center - REACH + k as i32) as f32 - midi_f).abs();
        away[k] = d.to_bits();
        edge[k] = (d - 1e-6).to_bits();
    }
    key.nearest_in_scale(center, &away, &edge)
}

#[derive(Debug, Clone, Copy)]
pub struct RetuneConfig {
    pub sample_rate: f32,
    pub retune_ms: f32,
    pub intent_ms: f32,
    pub max_correction_cents: f32,
    pub over_limit_ratio: f32,
}

impl Default for RetuneConfig {
    fn default() -> Self {
        Self {
            sample_rate: 48_000.0,
            retune_ms: 40.0,
            intent_ms: 150.0,
            max_correction_cents: 300.0,
            over_limit_ratio: 0.35,
        }
    }
}

/// The library's state for a configuration.
pub fn retuner(cfg: &RetuneConfig, key: Key) -> scale::Retuner {
    scale::Retuner::new(key, cfg.retune_ms.to_bits(), cfg.max_correction_cents.to_bits())
}

fn one_pole_coeff(tau_ms: f32, sample_rate: f32, hop_samples: usize) -> f32 {
    if tau_ms <= 0.0 {
        return 1.0;
    }
    let dt = hop_samples as f32 / sample_rate;
    let tau = tau_ms * 1e-3;
    (1.0 - (-dt / tau).exp()).clamp(0.0, 1.0)
}

/// One frame of retuning.
pub fn retune(
    r: &mut scale::Retuner,
    cfg: &RetuneConfig,
    f0_hz: f32,
    hop_samples: usize,
) -> scale::RetuneFrame {
    if let Some(idle) = scale::Retuner::idle_frame(f0_hz.to_bits()) {
        return idle;
    }
    let midi = hz_to_midi(f0_hz);
    let before = float(r.intent_midi);
    let a = one_pole_coeff(cfg.intent_ms, cfg.sample_rate, hop_samples);
    let smoothed = before + a * (midi - before);
    let intent = float(r.follow_intent(midi.to_bits(), smoothed.to_bits()));

    let target_midi = nearest_in_scale(r.key(), intent);
    let target_hz = midi_to_hz(target_midi as f32);
    let intent_hz = midi_to_hz(intent);
    let needed = cents_between(target_hz, intent_hz);
    let partial = needed * cfg.over_limit_ratio;
    let (applied, clamped) = r.limit_correction(needed.to_bits(), partial.to_bits());

    let target = float(applied) / 1200.0;
    let was = float(r.smoothed_log_ratio);
    let a = one_pole_coeff(float(r.retune_ms), cfg.sample_rate, hop_samples);
    let moved = was + a * (target - was);
    let log_ratio = float(r.follow_ratio(target.to_bits(), moved.to_bits()));
    scale::RetuneFrame {
        ratio: log_ratio.exp2().to_bits(),
        intent_hz: intent_hz.to_bits(),
        target_hz: target_hz.to_bits(),
        target_midi,
        cents_off: cents_between(f0_hz, target_hz).to_bits(),
        clamped,
    }
}

// ───────────────────────── noise ─────────────────────────

const PRIME_SECS: f32 = 0.05;
const SETTLE_SECS: f32 = 0.3;

#[derive(Debug, Clone, Copy)]
pub struct NoiseGateConfig {
    pub sample_rate: f32,
    pub margin_db: f32,
    pub fall_secs: f32,
    pub rise_secs: f32,
}

impl Default for NoiseGateConfig {
    fn default() -> Self {
        Self { sample_rate: 48_000.0, margin_db: 12.0, fall_secs: 0.15, rise_secs: 3.0 }
    }
}

/// The library's state for a configuration.
pub fn noise_gate(cfg: &NoiseGateConfig) -> noise::NoiseGate {
    noise::NoiseGate::new(
        (cfg.sample_rate * PRIME_SECS) as u64,
        (cfg.sample_rate * SETTLE_SECS) as u64,
        cfg.margin_db.to_bits(),
    )
}

/// The level from which on a frame may be voice.
pub fn noise_threshold(g: &noise::NoiseGate) -> f32 {
    float(g.floor()) * 10f32.powf(float(g.margin_db()) / 20.0)
}

fn one_pole(tau_secs: f32, sample_rate: f32, hop: usize) -> f32 {
    if tau_secs <= 0.0 {
        return 1.0;
    }
    let dt = hop as f32 / sample_rate;
    1.0 - (-dt / tau_secs).exp()
}

/// The noise floor moved towards a level, fast and slowly.
pub fn noise_steps(g: &noise::NoiseGate, cfg: &NoiseGateConfig, rms: f32, hop: usize) -> (u32, u32) {
    let floor = float(g.floor());
    let fallen = floor + (rms - floor) * one_pole(cfg.fall_secs, cfg.sample_rate, hop);
    let risen = floor + (rms - floor) * one_pole(cfg.rise_secs, cfg.sample_rate, hop);
    (fallen.to_bits(), risen.to_bits())
}

pub fn to_dbfs(linear: f32) -> f32 {
    20.0 * linear.max(1e-9).log10()
}

// ───────────────────────── the whole path ─────────────────────────

#[derive(Debug, Clone, Copy)]
pub struct CorrectorConfig {
    pub sample_rate: f32,
    pub hop: usize,
    pub yin: YinConfig,
    pub retune: RetuneConfig,
    pub psola: PsolaConfig,
    pub noise: NoiseGateConfig,
    pub key: Key,
}

impl Default for CorrectorConfig {
    fn default() -> Self {
        Self {
            sample_rate: 48_000.0,
            hop: 256,
            yin: YinConfig::default(),
            retune: RetuneConfig::default(),
            psola: PsolaConfig::default(),
            noise: NoiseGateConfig::default(),
            key: Key::default(),
        }
    }
}

impl CorrectorConfig {
    /// The defaults at a sample rate, in all parts alike.
    pub fn for_sample_rate(sample_rate: f32) -> Self {
        let d = Self::default();
        Self {
            sample_rate,
            yin: YinConfig { sample_rate, ..d.yin },
            retune: RetuneConfig { sample_rate, ..d.retune },
            psola: PsolaConfig { sample_rate, ..d.psola },
            noise: NoiseGateConfig { sample_rate, ..d.noise },
            ..d
        }
    }
}

/// The corrector: the library's state, with the arithmetic that it asks for.
pub struct Corrector {
    cfg: CorrectorConfig,
    pub core: corrector::Corrector,
    yin: Yin,
    ola: Ola,
    filter: TiltFilter,
    raw: Vec<u32>,
    window: Vec<f32>,
}

impl Corrector {
    pub fn new(cfg: CorrectorConfig) -> Self {
        let yin = Yin::new(cfg.yin);
        let plan = psola_plan(&cfg.psola);
        let min_period = (cfg.psola.sample_rate / cfg.psola.f0_max).floor().max(2.0) as usize;
        assert!(min_period <= plan.max_period(), "最短周期长于最长周期");
        assert!(cfg.hop > 0);
        let ola = Ola::new(&plan);
        let len = yin.required_len();
        let core = corrector::Corrector::new(
            plan,
            noise_gate(&cfg.noise),
            retuner(&cfg.retune, cfg.key),
            len,
            cfg.hop,
        );
        Self {
            core,
            yin,
            ola,
            filter: TiltFilter::new(cfg.sample_rate),
            raw: Vec::with_capacity(cfg.hop),
            window: vec![0.0; len],
            cfg,
        }
    }

    pub fn latency_samples(&self) -> u64 {
        self.core.latency_samples()
    }

    pub fn latency_ms(&self) -> f32 {
        self.latency_samples() as f32 * 1000.0 / self.cfg.psola.sample_rate
    }

    pub fn set_tilt_db_per_oct(&mut self, s: f32) {
        if self.core.set_tilt_db_per_oct(s.to_bits()) {
            self.filter.retune(float(self.core.tilt_db_per_oct()));
        }
    }

    /// Processes a block of any size.
    pub fn process(&mut self, input: &[f32], output: &mut [f32]) {
        let n = input.len().min(output.len());
        let mut off = 0;
        while off < n {
            let take = self.core.next_take(n - off);
            let block = &input[off..off + take];
            self.raw.clear();
            self.raw.extend(block.iter().map(|s| s.to_bits()));
            let due = self.core.take_in(&self.raw);
            self.ola.process(&mut self.core.psola, block, &mut output[off..off + take]);
            if self.core.is_tilted() {
                self.filter.process(&mut output[off..off + take]);
            }
            off += take;
            if due {
                self.analyze();
            }
        }
    }

    fn analyze(&mut self) {
        let hop = self.cfg.hop;
        let mut energy = 0.0f32;
        let mut peak = 0.0f32;
        for (slot, b) in self.window.iter_mut().zip(&self.core.analysis) {
            let s = float(*b);
            *slot = s;
            energy += s * s;
            peak = peak.max(s.abs());
        }
        let rms = (energy / self.window.len() as f32).sqrt();
        let (fallen, risen) = noise_steps(&self.core.gate, &self.cfg.noise, rms, hop);
        let threshold = noise_threshold(&self.core.gate);
        if !self.core.gate.is_open(rms.to_bits(), threshold.to_bits()) {
            let one = 1.0f32.to_bits();
            self.core.unvoiced_frame(rms.to_bits(), peak.to_bits(), one, false, fallen, risen);
            return;
        }
        let est = self.yin.analyze(&self.window);
        if !est.is_voiced {
            self.core.unvoiced_frame(
                rms.to_bits(),
                peak.to_bits(),
                est.aperiodicity,
                true,
                fallen,
                risen,
            );
            return;
        }
        let f0 = float(est.f0_hz);
        let rt = retune(&mut self.core.retuner, &self.cfg.retune, f0, hop);
        let shifted = float(rt.ratio) * (float(self.core.pitch_shift()) / 12.0).exp2();
        let formant = (float(self.core.formant_shift()) / 12.0).exp2();
        self.core.voiced_frame(
            est,
            period_of(self.cfg.psola.sample_rate, f0),
            rt,
            shifted.to_bits(),
            formant.to_bits(),
            rms.to_bits(),
            peak.to_bits(),
        );
    }
}

/// Follows the pitch of a recording and puts the track right. `progress` gets
/// values from zero to one, and breaks the work off by giving back `false`.
pub fn track_pitch(
    samples: &[f32],
    sample_rate: f32,
    progress: impl FnMut(f32) -> bool,
) -> Option<PitchTrack> {
    let mut track = track_pitch_raw(samples, sample_rate, progress)?;
    track.octave_fixes = fix_octaves(&mut track.frames);
    offline::median_filter(&mut track.frames);
    track.gap_fills = fill_gaps(&mut track.frames);
    Some(track)
}

/// Follows the pitch of a recording, frame by frame and no more.
pub fn track_pitch_raw(
    samples: &[f32],
    sample_rate: f32,
    mut progress: impl FnMut(f32) -> bool,
) -> Option<PitchTrack> {
    let mut yin = Yin::new(YinConfig { sample_rate, ..Default::default() });
    let win = yin.required_len();
    let n_frames = offline::frame_count(samples.len());
    let mut frames = Vec::with_capacity(n_frames);
    let mut buf = vec![0.0f32; win];
    let mut step = offline::first_frame(n_frames);
    loop {
        let i = match step {
            TrackStep::Frame(i) => i,
            TrackStep::Done => break,
            TrackStep::Stop => return None,
        };
        offline::fill_window(samples, i, 0.0, &mut buf);
        let est = yin.analyze(&buf);
        let rms = (buf.iter().map(|s| s * s).sum::<f32>() / win as f32).sqrt();
        frames.push(PitchFrame::heard(est, rms.to_bits()));
        let go_on = !offline::report_due(i) || progress(i as f32 / n_frames.max(1) as f32);
        step = offline::after_frame(i, n_frames, go_on);
    }
    progress(1.0);
    Some(PitchTrack::raw(frames, sample_rate.to_bits()))
}

/// Samples that one frame looks at.
pub fn analysis_window(sample_rate: f32) -> usize {
    Yin::new(YinConfig { sample_rate, ..Default::default() }).required_len()
}

/// Brings frames back that lie octaves off. How far they lie off is floating
/// point and is worked out here.
pub fn fix_octaves(frames: &mut Vec<PitchFrame>) -> usize {
    let references = offline::octave_references(frames);
    let found: Vec<Option<Octaves>> = references
        .iter()
        .zip(frames.iter())
        .map(|(r, f)| {
            let med = float((*r)?);
            let f0 = float(f.f0);
            let oct = (f0 / med).log2();
            let rounded = oct.round();
            Some(Octaves {
                rounded: rounded.to_bits(),
                rest: (oct - rounded).to_bits(),
                f0: (f0 / rounded.exp2()).to_bits(),
            })
        })
        .collect();
    offline::fix_octaves(frames, &found)
}

/// Closes short dropouts with pitches on a straight line in octaves. The line is
/// floating point and is worked out here.
pub fn fill_gaps(frames: &mut Vec<PitchFrame>) -> usize {
    let gaps = offline::gaps_in(frames);
    let values: Vec<Vec<u32>> = gaps
        .iter()
        .map(|g| {
            let la = float(frames[g.start - 1].f0).ln();
            let lb = float(frames[g.end].f0).ln();
            let len = g.end - g.start;
            (0..len)
                .map(|k| {
                    let t = (k + 1) as f32 / (len + 1) as f32;
                    (la + (lb - la) * t).exp().to_bits()
                })
                .collect()
        })
        .collect();
    offline::fill_gaps(frames, &gaps, &values)
}

/// Holds valid values out to the ends and bridges the holes between them in
/// straight lines, which are floating point and are worked out here.
pub fn hold_fill(v: &mut Vec<f32>, valid: &Vec<bool>) {
    assert_eq!(v.len(), valid.len());
    for hole in offline::hold_edges(v, valid) {
        let (a, b) = (v[hole.start - 1], v[hole.end]);
        let len = hole.end - hole.start;
        for (k, x) in v[hole.start..hole.end].iter_mut().enumerate() {
            *x = a + (b - a) * (k + 1) as f32 / (len + 1) as f32;
        }
    }
}

/// Smooths forwards and backwards, so that nothing lags.
pub fn smooth_vec_zero_phase(v: &mut [f32], hop: usize, sample_rate: f32, tau_ms: f32) {
    if tau_ms <= 0.0 || v.is_empty() {
        return;
    }
    let dt = hop as f32 / sample_rate;
    let a = (1.0 - (-dt / (tau_ms / 2000.0).max(1e-6)).exp()).clamp(0.0, 1.0);
    let mut acc = v[0];
    for x in v.iter_mut() {
        acc += (*x - acc) * a;
        *x = acc;
    }
    acc = v[v.len() - 1];
    for x in v.iter_mut().rev() {
        acc += (*x - acc) * a;
        *x = acc;
    }
}

/// The intended pitch of each frame: the pitch in octaves, smoothed without lag.
pub fn smooth_zero_phase(track: &PitchTrack, tau_ms: f32) -> Vec<f32> {
    let mut v: Vec<f32> = track.frames.iter().map(|f| float(f.f0).max(1.0).ln()).collect();
    let voiced = offline::sounding(&track.frames);
    // Unvoiced frames would drag the pitch down: they are bridged first.
    hold_fill(&mut v, &voiced);
    smooth_vec_zero_phase(&mut v, track.hop, float(track.sample_rate), tau_ms);
    v.iter().map(|x| x.exp()).collect()
}

/// Corrects a recording along its track.
pub fn recorrect(
    samples: &[f32],
    sample_rate: f32,
    track: &PitchTrack,
    cfg: RecorrectConfig,
    mut progress: impl FnMut(f32) -> bool,
) -> Option<Vec<f32>> {
    let lowest = float(offline::lowest_pitch(&track.frames));
    let floor = if lowest.is_finite() { (lowest * 0.9).max(50.0) } else { 70.0 };
    let psola_cfg = PsolaConfig { sample_rate, latency_f0_floor: floor, f0_max: 1100.0 };
    let mut plan = psola_plan(&psola_cfg);
    let mut ola = Ola::new(&plan);

    // Only the slow pitch is drawn to the scale, so a vibrato stays.
    let intent = smooth_zero_phase(track, float(cfg.intent_ms));
    let voiced = offline::sounding(&track.frames);
    let min_period = (sample_rate / psola_cfg.f0_max).floor().max(2.0) as usize;
    assert!(
        min_period <= plan.max_period() || voiced.iter().all(|v| !*v),
        "最短周期长于最长周期"
    );
    let mut correction: Vec<f32> = voiced
        .iter()
        .zip(&intent)
        .map(|(v, hz)| {
            if !*v {
                return 0.0;
            }
            let midi = hz_to_midi(*hz);
            (nearest_in_scale(cfg.key, midi) as f32 - midi) / 12.0
        })
        .collect();
    hold_fill(&mut correction, &voiced);
    smooth_vec_zero_phase(&mut correction, track.hop, float(track.sample_rate), float(cfg.retune_ms));

    let formant = (float(cfg.formant_shift) / 12.0).exp2();
    let shift = (float(cfg.pitch_shift) / 12.0).exp2();
    let mut out = vec![0.0f32; samples.len()];
    let n = track.frames.len();
    assert!((n + 1).checked_mul(track.hop).is_some(), "音高轨过长");
    let mut step = offline::first_frame(n);
    loop {
        let i = match step {
            TrackStep::Frame(i) => i,
            TrackStep::Done => break,
            TrackStep::Stop => return None,
        };
        let Some((start, end)) = offline::frame_span(i, track.hop, samples.len()) else {
            break;
        };
        let f = track.frames[i];
        let period = if voiced[i] { period_of(sample_rate, float(f.f0)) } else { 0 };
        let ratio = correction[i].exp2() * shift;
        offline::steer(&mut plan, f, period, ratio.to_bits(), formant.to_bits());
        ola.process(&mut plan, &samples[start..end], &mut out[start..end]);
        let go_on = !offline::report_due(i) || progress(i as f32 / n.max(1) as f32);
        step = offline::after_frame(i, n, go_on);
    }
    offline::undo_delay(&mut out, plan.latency_samples() as usize, 0.0);
    progress(1.0);
    Some(out)
}

const GRID_LO_HZ: f32 = 200.0;

fn grid_hz(i: usize) -> f32 {
    GRID_LO_HZ * (i as f32 / BINS_PER_OCT as f32).exp2()
}

/// The fingerprint of a mono recording.
pub fn analyze(samples: &[f32], sample_rate: f32) -> TimbreProfile {
    let n = timbre::grid_len();
    let mut env_sum = vec![0.0f64; n];
    let mut env_frames = 0usize;
    let fft = Fft::new(FRAME);
    let mut yin = Yin::new(YinConfig { sample_rate, ..Default::default() });
    let mut f0s: Vec<u32> = Vec::new();
    let mut buf = vec![C::default(); FRAME];
    let win: Vec<f32> = (0..FRAME)
        .map(|i| 0.5 * (1.0 - (TAU * i as f32 / (FRAME - 1) as f32).cos()))
        .collect();

    let mut k = 0usize;
    while let Some(pos) = timbre::frame_at(k, samples.len()) {
        let frame = &samples[pos..pos + FRAME];
        k += 1;
        let est = yin.analyze(frame);
        if !est.is_voiced || float(est.f0_hz) <= 0.0 {
            continue;
        }
        f0s.push(est.f0_hz);
        for (i, slot) in buf.iter_mut().enumerate() {
            *slot = C::new(frame[i] * win[i], 0.0);
        }
        fft.forward(&mut buf);
        for slot in buf.iter_mut() {
            let mag = (slot.re * slot.re + slot.im * slot.im).sqrt();
            *slot = C::new(mag.max(1e-9).ln(), 0.0);
        }
        let mut ceps = buf.clone();
        fft.inverse(&mut ceps);
        for (q, slot) in ceps.iter_mut().enumerate() {
            if !timbre::is_kept(q) {
                *slot = C::default();
            }
        }
        fft.forward(&mut ceps);
        for (i, acc) in env_sum.iter_mut().enumerate() {
            let bin = grid_hz(i) * FRAME as f32 / sample_rate;
            if bin >= (FRAME / 2 - 1) as f32 {
                continue;
            }
            let b0 = bin.floor() as usize;
            let t = bin - b0 as f32;
            let v = ceps[b0].re * (1.0 - t) + ceps[b0 + 1].re * t;
            *acc += (v * 20.0 / LN_10) as f64;
        }
        env_frames += 1;
    }

    let voiced_secs = env_frames as f32 * FRAME_HOP as f32 / sample_rate;
    let duration_secs = samples.len() as f32 / sample_rate;
    let mut envelope = vec![0.0f32; n];
    if env_frames > 0 {
        for (i, acc) in env_sum.iter().enumerate() {
            envelope[i] = (*acc / env_frames as f64) as f32;
        }
        let mean = envelope.iter().sum::<f32>() / n as f32;
        for v in envelope.iter_mut() {
            *v -= mean;
        }
    }
    let pick = |p: f32| -> u32 {
        if f0s.is_empty() {
            return 0.0f32.to_bits();
        }
        let at = ((f0s.len() - 1) as f32 * p) as usize;
        sorting::nth(&f0s, at.min(f0s.len() - 1))
    };
    TimbreProfile {
        median_f0: pick(0.5),
        f0_low: pick(0.1),
        f0_high: pick(0.9),
        voiced_secs: voiced_secs.to_bits(),
        duration_secs: duration_secs.to_bits(),
        tilt_db_per_oct: tilt(&envelope).to_bits(),
        envelope: envelope.iter().map(|v| v.to_bits()).collect(),
    }
}

/// The slope of an envelope in dB per octave, by least squares.
fn tilt(env: &[f32]) -> f32 {
    if env.len() < 2 {
        return 0.0;
    }
    let n = env.len() as f32;
    let xs: Vec<f32> = (0..env.len()).map(|i| i as f32 / BINS_PER_OCT as f32).collect();
    let mx = xs.iter().sum::<f32>() / n;
    let my = env.iter().sum::<f32>() / n;
    let mut num = 0.0;
    let mut den = 0.0;
    for (x, y) in xs.iter().zip(env.iter()) {
        num += (x - mx) * (y - my);
        den += (x - mx) * (x - mx);
    }
    if den.abs() < 1e-12 {
        0.0
    } else {
        num / den
    }
}

/// How to come from one voice to another. The errors of the shifts are floating
/// point and are worked out here.
pub fn match_to(src: &TimbreProfile, target: &TimbreProfile) -> TimbreMatch {
    let n = src.envelope.len().min(target.envelope.len());
    assert!(n <= i32::MAX as usize);
    let errs: Vec<u32> = (-MAX_SHIFT_BINS..=MAX_SHIFT_BINS)
        .map(|s| {
            let o = timbre::overlap(n, s);
            if !o.enough {
                return f32::INFINITY.to_bits();
            }
            let mut sum = 0.0f32;
            for i in o.from..o.from + o.count {
                let j = (i as i32 - s) as usize;
                let d = float(target.envelope[i]) - float(src.envelope[j]);
                sum += d * d;
            }
            (sum / o.count as f32).to_bits()
        })
        .collect();
    let best = timbre::best_shift(&errs);
    let typical = float(best.typical);
    let sharpness = if typical > 1e-6 {
        (1.0 - float(best.err) / typical).clamp(0.0, 1.0)
    } else {
        0.0
    };
    let material = (float(src.voiced_secs).min(float(target.voiced_secs)) / 5.0).clamp(0.0, 1.0);
    let confidence = sharpness * 0.7 + material * 0.3;
    let pitch_delta = 12.0 * (float(target.median_f0) / float(src.median_f0)).log2();
    let refined = match best.sides {
        Some((y0, y2)) => {
            let (y0, y1, y2) = (float(y0), float(best.err), float(y2));
            let den = y0 - 2.0 * y1 + y2;
            if den > 1e-9 {
                best.shift as f32 + (0.5 * (y0 - y2) / den).clamp(-1.0, 1.0)
            } else {
                best.shift as f32
            }
        }
        None => best.shift as f32,
    };
    let formant_shift = refined * 12.0 / BINS_PER_OCT as f32;
    let tilt_delta = float(target.tilt_db_per_oct) - float(src.tilt_db_per_oct);
    timbre::matched(
        src,
        target,
        formant_shift.to_bits(),
        confidence.to_bits(),
        pitch_delta.to_bits(),
        tilt_delta.to_bits(),
    )
}

/// Material whose pitch is known at every sample.
pub struct Probe {
    pub name: &'static str,
    pub what: &'static str,
    pub samples: Vec<f32>,
    pub sample_rate: f32,
    /// Pitch by sample in Hz; zero is silence.
    pub truth: Vec<f32>,
    /// Not part of the average: marks where the tracker should give up.
    pub informational: bool,
}

#[derive(Debug, Clone, Copy, Default)]
pub struct Score {
    pub evaluated: usize,
    pub voiced_truth: usize,
    pub unvoiced_truth: usize,
    pub rpa: f32,
    pub rca: f32,
    pub octave_error: f32,
    pub voicing_recall: f32,
    pub voicing_false_alarm: f32,
    pub median_cents: f32,
    pub p90_cents: f32,
}

fn cents(a: f32, b: f32) -> f32 {
    1200.0 * (a / b).log2()
}

/// The distance with whole octaves left out, from -600 to 600.
fn chroma_cents(a: f32, b: f32) -> f32 {
    let mut c = cents(a, b) % 1200.0;
    if c > 600.0 {
        c -= 1200.0;
    } else if c < -600.0 {
        c += 1200.0;
    }
    c
}

/// Scores frames against the truth. The distances are floating point and are
/// worked out here.
pub fn score(truth: &[f32], frames: &[Frame], window: usize) -> Score {
    let raw: Vec<u32> = truth.iter().map(|v| v.to_bits()).collect();
    let jumps: Vec<bool> = truth
        .windows(2)
        .map(|w| w[0] > 0.0 && w[1] > 0.0 && cents(w[1], w[0]).abs() > 50.0)
        .collect();
    let mut t = Tally::new();
    for f in frames {
        let Some((from, to)) = t.take(&raw, &jumps, window, *f) else {
            continue;
        };
        let win = &truth[from..to];
        // The mean in cents is the geometric mean in Hz.
        let mean: f32 = win.iter().map(|v| v.log2()).sum::<f32>() / win.len() as f32;
        let reference = mean.exp2();
        let f0 = float(f.f0);
        t.compare_pitch(
            cents(f0, reference).abs().to_bits(),
            chroma_cents(f0, reference).abs().to_bits(),
        );
    }
    let ev = t.evaluated.max(1) as f32;
    let (median, p90) = t.percentiles();
    Score {
        evaluated: t.evaluated,
        voiced_truth: t.voiced_truth,
        unvoiced_truth: t.unvoiced_truth,
        rpa: t.rpa_hit as f32 / ev,
        rca: t.rca_hit as f32 / ev,
        octave_error: t.octave as f32 / ev,
        voicing_recall: t.recall_hit as f32 / t.voiced_truth.max(1) as f32,
        voicing_false_alarm: t.false_alarm as f32 / t.unvoiced_truth.max(1) as f32,
        median_cents: float(median),
        p90_cents: float(p90),
    }
}

const FORMANTS: [(f32, f32); 3] = [(700.0, 110.0), (1220.0, 130.0), (2600.0, 180.0)];

fn formant_gain(hz: f32) -> f32 {
    let mut g = 0.05f32;
    for (f, bw) in FORMANTS {
        let d = (hz - f) / bw;
        g += 1.0 / (1.0 + d * d);
    }
    g
}

/// Voice-like material along a pitch contour.
pub fn synth(
    contour: impl Fn(f32) -> f32,
    secs: f32,
    sample_rate: f32,
    level: f32,
    snr_db: Option<f32>,
) -> (Vec<f32>, Vec<f32>) {
    let n = (secs * sample_rate) as usize;
    let mut out = Vec::with_capacity(n);
    let mut truth = Vec::with_capacity(n);
    let mut phase = 0.0f64;
    let mut env = 0.0f32;
    let attack = 1.0 - (-1.0 / (0.008 * sample_rate)).exp();
    for i in 0..n {
        let t = i as f32 / sample_rate;
        let f0 = contour(t);
        truth.push(f0);
        let target = if f0 > 0.0 { 1.0 } else { 0.0 };
        env += (target - env) * attack;
        if f0 > 0.0 {
            phase += (f0 as f64) * std::f64::consts::TAU / sample_rate as f64;
            if phase > std::f64::consts::TAU {
                phase -= std::f64::consts::TAU;
            }
        }
        let mut v = 0.0f32;
        if f0 > 0.0 {
            let kmax = ((0.45 * sample_rate / f0) as usize).clamp(1, 80);
            for k in 1..=kmax {
                let hz = f0 * k as f32;
                v += (phase as f32 * k as f32).sin() * formant_gain(hz) / k as f32;
            }
        }
        out.push(v * env * level * 0.25);
    }
    if let Some(snr) = snr_db {
        let sig: f32 = (out.iter().map(|v| v * v).sum::<f32>() / n.max(1) as f32).sqrt();
        let noise_rms = sig * 10f32.powf(-snr / 20.0);
        let mut st = 0x2545F491_4F6CDD1Du64;
        for v in out.iter_mut() {
            st = next_noise(st);
            let u = ((st >> 40) as f32 / 8_388_608.0) - 1.0;
            *v += u * noise_rms * 1.73;
        }
    }
    (out, truth)
}

/// Five notes with breaths between them.
fn phrase(t: f32) -> f32 {
    let seg = (t / 0.6) as u32;
    if (t % 0.6) > 0.45 {
        return 0.0;
    }
    [196.0, 220.0, 247.0, 262.0, 294.0][(seg % 5) as usize]
}

/// The standard material: one probe for each way to fail.
pub fn probes(sample_rate: f32) -> Vec<Probe> {
    let mut v = Vec::new();
    let mut put = |name, what, secs, level, snr, f: Box<dyn Fn(f32) -> f32>| {
        let (samples, truth) = synth(f, secs, sample_rate, level, snr);
        v.push(Probe { name, what, samples, sample_rate, truth, informational: name == "noisy0" });
    };
    put("steady", "220 Hz 长音 —— 最容易的一档，这里都不准就别谈别的", 2.0, 1.0, None, Box::new(|_| 220.0));
    put(
        "vibrato",
        "220 Hz ±50 音分 / 6 Hz 颤音 —— 修音必须保住它",
        2.0,
        1.0,
        None,
        Box::new(|t| 220.0 * (0.5 * (std::f32::consts::TAU * 6.0 * t).sin() / 12.0).exp2()),
    );
    put(
        "glide",
        "150→400 Hz 滑音 —— 考的是窗口内 f0 在变时还准不准",
        2.0,
        1.0,
        None,
        Box::new(|t| 150.0 * (400.0f32 / 150.0).powf(t / 2.0)),
    );
    put("low", "85 Hz 男低音 —— 贴着 f0_min=70 的下沿", 1.5, 1.0, None, Box::new(|_| 85.0));
    put("high", "880 Hz 女高音 —— 周期只有 55 个样本", 1.5, 1.0, None, Box::new(|_| 880.0));
    put(
        "octaves",
        "165↔330↔660 Hz 八度跳进 —— 专钓倍频/分频错误",
        3.0,
        1.0,
        None,
        Box::new(|t| match (t * 2.0) as u32 % 3 {
            0 => 165.0,
            1 => 330.0,
            _ => 660.0,
        }),
    );
    put("phrase", "带换气停顿的乐句 —— 考浊音判定，不只是音高", 3.0, 1.0, None, Box::new(phrase));
    put("noisy20", "乐句 + 20 dB 信噪比 —— 安静房间里的电容麦", 3.0, 1.0, Some(20.0), Box::new(phrase));
    put("noisy6", "乐句 + 6 dB 信噪比 —— 有空调/风扇的房间", 3.0, 1.0, Some(6.0), Box::new(phrase));
    put(
        "low_noisy",
        "85 Hz 男低音 + 10 dB 信噪比 —— 最容易被误判成高八度",
        2.0,
        1.0,
        Some(10.0),
        Box::new(|_| 85.0),
    );
    put(
        "noisy0",
        "乐句 + 0 dB 信噪比 —— 超出可用范围，正确行为是判清音",
        3.0,
        1.0,
        Some(0.0),
        Box::new(phrase),
    );
    put("quiet", "乐句 @ -34 dBFS —— 离麦远、不敢放开唱", 3.0, 0.02, None, Box::new(phrase));
    v
}

// ───────────────────────── tests ─────────────────────────

const SR: f32 = 48_000.0;
const SCORE_WINDOW: usize = 1372;

fn tone(freq: f32, n: usize) -> Vec<f32> {
    (0..n).map(|i| (TAU * freq * i as f32 / SR).sin()).collect()
}

fn half_tone(freq: f32, secs: f32) -> Vec<f32> {
    let n = (secs * SR) as usize;
    (0..n).map(|i| (TAU * freq * i as f32 / SR).sin() * 0.5).collect()
}

fn harmonic(freq: f32, sr: f32, n: usize) -> Vec<f32> {
    (0..n)
        .map(|i| {
            let t = i as f32 / sr;
            (TAU * freq * t).sin()
                + 0.5 * (TAU * 2.0 * freq * t).sin()
                + 0.25 * (TAU * 3.0 * freq * t).sin()
        })
        .collect()
}

fn pseudo_random(n: usize, seed: u32) -> Vec<f32> {
    let mut s = seed;
    (0..n)
        .map(|_| {
            s = s.wrapping_mul(1_664_525).wrapping_add(1_013_904_223);
            (s >> 8) as f32 / 8_388_608.0 - 1.0
        })
        .collect()
}

// The transform.

fn naive_dft(x: &[C]) -> Vec<C> {
    let n = x.len();
    (0..n)
        .map(|k| {
            let mut acc = C::default();
            for (j, v) in x.iter().enumerate() {
                let a = -TAU * (k * j) as f32 / n as f32;
                acc = acc.plus(v.times(C::new(a.cos(), a.sin())));
            }
            acc
        })
        .collect()
}

#[test]
fn matches_naive_dft() {
    for n in [2usize, 4, 8, 16, 64] {
        let fft = Fft::new(n);
        let src: Vec<C> = pseudo_random(n, 7)
            .iter()
            .zip(pseudo_random(n, 99).iter())
            .map(|(&re, &im)| C::new(re, im))
            .collect();
        let want = naive_dft(&src);
        let mut got = src.clone();
        fft.forward(&mut got);
        for (w, g) in want.iter().zip(got.iter()) {
            assert!((w.re - g.re).abs() < 1e-3 && (w.im - g.im).abs() < 1e-3, "n={n}: {w:?} {g:?}");
        }
    }
}

#[test]
fn forward_inverse_roundtrip() {
    let n = 1024;
    let fft = Fft::new(n);
    let src: Vec<C> = pseudo_random(n, 3).iter().map(|&re| C::new(re, 0.0)).collect();
    let mut buf = src.clone();
    fft.forward(&mut buf);
    fft.inverse(&mut buf);
    for (s, b) in src.iter().zip(buf.iter()) {
        assert!((s.re - b.re).abs() < 1e-4, "{s:?} {b:?}");
        assert!(b.im.abs() < 1e-4);
    }
}

#[test]
fn correlate_matches_direct_sum() {
    let w = 686usize;
    let max_lag = 686usize;
    let n = fft::required_len(w, max_lag);
    let fft = Fft::new(n);
    let full = pseudo_random(w + max_lag, 12345);
    let a = &full[..w];
    let mut got = vec![0.0f32; max_lag + 1];
    let mut scratch = vec![C::default(); n];
    let mut spec = vec![C::default(); n];
    fft.correlate(a, &full, &mut got, &mut scratch, &mut spec);
    for tau in 0..=max_lag {
        let mut want = 0.0f64;
        for j in 0..w {
            want += a[j] as f64 * full[j + tau] as f64;
        }
        let err = (got[tau] as f64 - want).abs();
        assert!(err < 0.5, "tau={tau}: {want:.4} {:.4}", got[tau]);
    }
}

#[test]
fn correlate_finds_periodicity() {
    let freq = 220.0f32;
    let w = 686usize;
    let max_lag = 686usize;
    let n = fft::required_len(w, max_lag);
    let fft = Fft::new(n);
    let full = tone(freq, w + max_lag);
    let mut r = vec![0.0f32; max_lag + 1];
    let mut scratch = vec![C::default(); n];
    let mut spec = vec![C::default(); n];
    fft.correlate(&full[..w], &full, &mut r, &mut scratch, &mut spec);
    let period = (SR / freq).round() as usize;
    let peak = (period - 3..=period + 3)
        .max_by(|&a, &b| r[a].partial_cmp(&r[b]).unwrap())
        .unwrap();
    assert!((peak as i32 - period as i32).abs() <= 3, "{peak}");
    assert!(r[peak] > r[period / 2]);
}

#[test]
fn required_len_avoids_wraparound() {
    assert!(fft::required_len(686, 686) >= 686 + 686 + 1);
    assert!(fft::required_len(686, 686).is_power_of_two());
    assert_eq!(fft::required_len(686, 686), 2048);
}

#[test]
fn the_reordering_swaps_pairs() {
    let f = fft::Fft::new(3);
    let got: Vec<Option<usize>> = (0..8).map(|i| f.swap_with(i)).collect();
    assert_eq!(got, vec![None, Some(4), None, Some(6), None, None, None, None]);
    assert_eq!(f.len(), 8);
    assert!(!f.is_empty());
    assert_eq!((f.mirror(0), f.mirror(3)), (0, 5));
}

#[test]
fn each_step_visits_every_place_once() {
    let f = fft::Fft::new(5);
    for half in [1usize, 2, 4, 8, 16] {
        let mut seen = vec![0; 32];
        for t in 0..16 {
            let b = f.butterfly(half, t);
            seen[b.low] += 1;
            seen[b.high] += 1;
            assert_eq!(b.high - b.low, half);
            assert!(b.twiddle < 16);
        }
        assert!(seen.iter().all(|n| *n == 1), "{half}");
    }
}

// Pitch detection.

#[test]
fn noise_must_not_drag_the_estimate_down_an_octave() {
    let mut yin = Yin::new(YinConfig { sample_rate: SR, ..Default::default() });
    let n = yin.required_len();
    for f0 in [110.0f32, 165.0, 220.0, 330.0] {
        let mut x: Vec<f32> = (0..n)
            .map(|i| {
                let t = i as f32 / SR;
                (1..=12).map(|k| (TAU * f0 * k as f32 * t).sin() / k as f32).sum::<f32>()
            })
            .collect();
        let rms = (x.iter().map(|v| v * v).sum::<f32>() / n as f32).sqrt();
        let mut st = 0x9E3779B97F4A7C15u64;
        for v in x.iter_mut() {
            st ^= st << 13;
            st ^= st >> 7;
            st ^= st << 17;
            *v += (((st >> 40) as f32 / 8_388_608.0) - 1.0) * rms * 0.5;
        }
        let est = yin.analyze(&x);
        assert!(est.is_voiced, "{f0}");
        let c = 1200.0 * (float(est.f0_hz) / f0).log2();
        assert!(c > -600.0, "{f0}: {c:.0}");
        assert!(c.abs() < 60.0, "{f0}: {:.1}", float(est.f0_hz));
    }
}

#[test]
fn a_genuinely_low_voice_is_not_pushed_up_an_octave() {
    let mut yin = Yin::new(YinConfig { sample_rate: SR, ..Default::default() });
    let n = yin.required_len();
    for f0 in [80.0f32, 85.0, 98.0] {
        let x: Vec<f32> = (0..n)
            .map(|i| {
                let t = i as f32 / SR;
                (1..=20).map(|k| (TAU * f0 * k as f32 * t).sin() / k as f32).sum::<f32>()
            })
            .collect();
        let est = yin.analyze(&x);
        let c = 1200.0 * (float(est.f0_hz) / f0).log2();
        assert!(c < 600.0, "{f0}: {c:.0}");
    }
}

#[test]
fn detects_pure_tones_across_vocal_range() {
    let cfg = YinConfig::default();
    let mut yin = Yin::new(cfg);
    let n = yin.required_len() + 64;
    for &f in &[82.4, 110.0, 220.0, 440.0, 523.25, 880.0] {
        let est = yin.analyze(&tone(f, n));
        assert!(est.is_voiced, "{f}");
        let err = cents(float(est.f0_hz), f).abs();
        assert!(err < 15.0, "{f}: {err:.1}");
    }
}

#[test]
fn detects_harmonic_tones_without_octave_error() {
    let cfg = YinConfig::default();
    let mut yin = Yin::new(cfg);
    let n = yin.required_len() + 64;
    for &f in &[98.0, 146.83, 261.63, 440.0] {
        let est = yin.analyze(&harmonic(f, cfg.sample_rate, n));
        assert!(est.is_voiced, "{f}");
        let err = cents(float(est.f0_hz), f).abs();
        assert!(err < 20.0, "{f}: {err:.1}");
    }
}

#[test]
fn silence_is_unvoiced() {
    let mut yin = Yin::new(YinConfig::default());
    let x = vec![0.0; yin.required_len()];
    assert!(!yin.analyze(&x).is_voiced);
}

#[test]
fn white_noise_is_unvoiced() {
    let mut yin = Yin::new(YinConfig::default());
    let x = pseudo_random(yin.required_len(), 0x1234_5678);
    assert!(!yin.analyze(&x).is_voiced);
}

#[test]
fn short_input_returns_unvoiced_instead_of_panicking() {
    let mut yin = Yin::new(YinConfig::default());
    let x = vec![0.5; 10];
    let est = yin.analyze(&x);
    assert!(!est.is_voiced);
    assert_eq!(float(est.aperiodicity), 1.0);
}

fn diff_direct(x: &[f32], w: usize, tau_max: usize) -> Vec<f32> {
    let mut d = vec![0.0f32; tau_max + 1];
    for (tau, slot) in d.iter_mut().enumerate().skip(1) {
        let mut acc = 0.0f64;
        for j in 0..w {
            let delta = (x[j] - x[j + tau]) as f64;
            acc += delta * delta;
        }
        *slot = acc as f32;
    }
    d
}

#[test]
fn fft_diff_matches_direct_sum() {
    let cfg = YinConfig::default();
    let mut yin = Yin::new(cfg);
    let need = yin.required_len();
    let w = yin.shape.window;
    let tau_max = yin.shape.tau_max();
    let x = harmonic(147.0, cfg.sample_rate, need);
    let _ = yin.analyze(&x);
    let want = diff_direct(&x, w, tau_max);
    let scale = want.iter().cloned().fold(0.0f32, f32::max).max(1.0);
    for tau in 1..=tau_max {
        let err = (yin.diff[tau] - want[tau]).abs() / scale;
        assert!(err < 1e-3, "tau={tau}: {err:.2e}");
    }
}

#[test]
fn fft_path_preserves_detected_pitch() {
    let cfg = YinConfig::default();
    let mut yin = Yin::new(cfg);
    let need = yin.required_len();
    for &f in &[82.4f32, 110.0, 146.83, 220.0, 440.0, 880.0] {
        let est = yin.analyze(&harmonic(f, cfg.sample_rate, need));
        assert!(est.is_voiced, "{f}");
        let err = cents(float(est.f0_hz), f).abs();
        assert!(err < 20.0, "{f}: {err:.1}");
    }
}

#[test]
fn fft_length_avoids_wraparound() {
    let yin = Yin::new(YinConfig::default());
    assert!(yin.fft_len() >= yin.shape.window + yin.shape.tau_max() + 1);
    assert!(yin.fft_len().is_power_of_two());
}

fn lags(v: &[f32]) -> Vec<u32> {
    v.iter().map(|x| x.to_bits()).collect()
}

#[test]
fn the_first_deep_valley_is_picked() {
    let c = lags(&[1.0, 1.0, 0.9, 0.14, 0.10, 0.3, 0.9, 0.05, 0.9]);
    assert_eq!(yin::pick_lag(&c, 2, 8, 0.15f32.to_bits()), Some(4));
    // Nothing below the threshold: the lowest of all, the first of several.
    assert_eq!(yin::pick_lag(&c, 2, 8, 0.01f32.to_bits()), Some(7));
    let flat = lags(&[1.0, 0.5, 0.5, 0.5]);
    assert_eq!(yin::pick_lag(&flat, 1, 3, 0.1f32.to_bits()), Some(1));
    let none = lags(&[f32::NAN, f32::INFINITY, f32::NAN]);
    assert_eq!(yin::pick_lag(&none, 0, 2, 0.1f32.to_bits()), None);
}

#[test]
fn a_third_is_tried_before_a_half() {
    let y = yin::Yin::new(4, 60);
    let mut v = vec![0.9f32; 61];
    v[60] = 0.1;
    v[30] = 0.12;
    assert_eq!(y.undo_subharmonic(&lags(&v), 60, 0.16f32.to_bits()), 30);
    v[20] = 0.15;
    assert_eq!(y.undo_subharmonic(&lags(&v), 60, 0.16f32.to_bits()), 20);
    // Too much worse, or no period at all: the lag stays.
    assert_eq!(y.undo_subharmonic(&lags(&v), 60, 0.11f32.to_bits()), 60);
    v[20] = 0.5;
    v[30] = 0.5;
    assert_eq!(y.undo_subharmonic(&lags(&v), 60, 0.8f32.to_bits()), 60);
}

// Overlap and add.

fn psola_cfg() -> PsolaConfig {
    PsolaConfig { sample_rate: SR, latency_f0_floor: 100.0, f0_max: 1100.0 }
}

fn shifted_by(p: &mut Psola, input: &[f32], block: usize) -> Vec<f32> {
    let mut out = Vec::with_capacity(input.len());
    let mut buf = vec![0.0; block];
    for chunk in input.chunks(block) {
        let n = chunk.len();
        p.process(chunk, &mut buf[..n]);
        out.extend_from_slice(&buf[..n]);
    }
    out
}

/// The pitch, by correlation.
fn estimate_f0(x: &[f32]) -> f32 {
    let tau_min = (SR / 1100.0) as usize;
    let tau_max = (SR / 70.0) as usize;
    let w = x.len().saturating_sub(tau_max);
    assert!(w > tau_max);
    let mut best_tau = tau_min;
    let mut best = f32::NEG_INFINITY;
    for tau in tau_min..=tau_max {
        let mut ac = 0.0;
        let mut n0 = 0.0;
        let mut n1 = 0.0;
        for j in 0..w {
            ac += x[j] * x[j + tau];
            n0 += x[j] * x[j];
            n1 += x[j + tau] * x[j + tau];
        }
        let norm: f32 = (n0 * n1 as f32).sqrt();
        let v = if norm > 0.0 { ac / norm } else { 0.0 };
        if v > best {
            best = v;
            best_tau = tau;
        }
    }
    SR / best_tau as f32
}

fn voiced_with_formant(f0: f32, formant_hz: f32, n: usize) -> Vec<f32> {
    let period = (SR / f0).round().max(2.0) as usize;
    let r = 0.96f32;
    let theta = TAU * formant_hz / SR;
    let (a1, a2) = (2.0 * r * theta.cos(), -r * r);
    let (mut y1, mut y2) = (0.0f32, 0.0f32);
    let mut out = Vec::with_capacity(n);
    for i in 0..n {
        let x = if i % period == 0 { 1.0 } else { 0.0 };
        let y = x + a1 * y1 + a2 * y2;
        out.push(y);
        y2 = y1;
        y1 = y;
    }
    let peak = out.iter().fold(0.0f32, |m, s| m.max(s.abs()));
    out.iter().map(|s| s / peak.max(1e-9)).collect()
}

fn spectral_centroid(x: &[f32]) -> f32 {
    const N: usize = 8192;
    assert!(x.len() >= N);
    let fft = Fft::new(N);
    let mut buf = vec![C::default(); N];
    for (i, slot) in buf.iter_mut().enumerate() {
        let w = 0.5 * (1.0 - (TAU * i as f32 / (N - 1) as f32).cos());
        *slot = C::new(x[i] * w, 0.0);
    }
    fft.forward(&mut buf);
    let lo = (300.0 * N as f32 / SR) as usize;
    let hi = (4000.0 * N as f32 / SR) as usize;
    let (mut num, mut den) = (0.0f64, 0.0f64);
    for (k, c) in buf.iter().enumerate().take(hi + 1).skip(lo) {
        let mag = (c.re * c.re + c.im * c.im).sqrt() as f64;
        num += k as f64 * SR as f64 / N as f64 * mag;
        den += mag;
    }
    (num / den.max(1e-12)) as f32
}

#[test]
fn formant_shift_moves_envelope_but_not_pitch() {
    let input = voiced_with_formant(160.0, 900.0, 60_000);
    let mut base = Psola::new(psola_cfg());
    base.set_pitch(160.0, true);
    base.set_ratio(1.0);
    let out0 = shifted_by(&mut base, &input, 256);
    let c0 = spectral_centroid(&out0[30_000..]);
    for &(alpha, up) in &[(1.3f32, true), (0.77f32, false)] {
        let mut p = Psola::new(psola_cfg());
        p.set_pitch(160.0, true);
        p.set_ratio(1.0);
        p.set_formant(alpha);
        let out = shifted_by(&mut p, &input, 256);
        let c1 = spectral_centroid(&out[30_000..]);
        if up {
            assert!(c1 > c0 * 1.08, "{alpha}: {c0:.0} {c1:.0}");
        } else {
            assert!(c1 < c0 * 0.92, "{alpha}: {c0:.0} {c1:.0}");
        }
        let f = estimate_f0(&out[30_000..]);
        let err = cents(f, 160.0).abs();
        assert!(err < 35.0, "{alpha}: {f:.1}");
    }
}

#[test]
fn extreme_formant_near_f0_floor_stays_safe() {
    let mut p = Psola::new(psola_cfg());
    p.set_pitch(100.0, true);
    p.set_ratio(1.0);
    p.set_formant(2.0);
    let out = shifted_by(&mut p, &tone(100.0, 96_000), 128);
    assert_eq!(p.underruns(), 0);
    assert!(out.iter().all(|s| s.is_finite()));
    let peak = out.iter().fold(0.0f32, |m, s| m.max(s.abs()));
    assert!(peak < 4.0, "{peak:.2}");
}

#[test]
fn formant_shift_does_not_change_latency() {
    let mut p = Psola::new(psola_cfg());
    let before = p.latency_samples();
    p.set_formant(1.45);
    assert_eq!(p.latency_samples(), before);
}

#[test]
fn reports_expected_latency() {
    let p = Psola::new(psola_cfg());
    assert_eq!(p.latency_samples(), 960);
    assert!((p.latency_ms() - 20.0).abs() < 0.1);
}

#[test]
fn unity_ratio_preserves_pitch() {
    let mut p = Psola::new(psola_cfg());
    p.set_pitch(220.0, true);
    p.set_ratio(1.0);
    let out = shifted_by(&mut p, &tone(220.0, 48_000), 256);
    let f = estimate_f0(&out[24_000..]);
    let err = cents(f, 220.0).abs();
    assert!(err < 20.0, "{f:.1}");
}

#[test]
fn shifts_pitch_up_and_down() {
    for &semis in &[2.0f32, -2.0] {
        let ratio = (semis / 12.0).exp2();
        let mut p = Psola::new(psola_cfg());
        p.set_pitch(220.0, true);
        p.set_ratio(ratio);
        let out = shifted_by(&mut p, &tone(220.0, 48_000), 256);
        let f = estimate_f0(&out[24_000..]);
        let expected = 220.0 * ratio;
        let err = cents(f, expected).abs();
        assert!(err < 35.0, "{semis:+}: {expected:.1} {f:.1}");
    }
}

#[test]
fn unvoiced_passes_through_cleanly() {
    let mut p = Psola::new(psola_cfg());
    p.set_pitch(0.0, false);
    let input: Vec<f32> = (0..24_000).map(|i| if i % 97 == 0 { 0.7 } else { -0.1 }).collect();
    let out = shifted_by(&mut p, &input, 256);
    let delay = p.latency_samples() as usize;
    let start = delay + 1024;
    let mut max_err: f32 = 0.0;
    for i in start..(input.len() - delay) {
        max_err = max_err.max((out[i + delay] - input[i]).abs());
    }
    assert!(max_err < 1e-6, "{max_err}");
}

#[test]
fn no_underruns_in_steady_state() {
    let mut p = Psola::new(psola_cfg());
    p.set_pitch(180.0, true);
    p.set_ratio(1.05);
    let _ = shifted_by(&mut p, &tone(180.0, 96_000), 128);
    assert_eq!(p.underruns(), 0);
}

#[test]
fn survives_voiced_unvoiced_transitions() {
    let mut p = Psola::new(psola_cfg());
    let block = 256;
    let mut buf = vec![0.0; block];
    let voiced = tone(200.0, 12_000);
    let mut out = Vec::new();
    for round in 0..6 {
        let is_voiced = round % 2 == 0;
        p.set_pitch(if is_voiced { 200.0 } else { 0.0 }, is_voiced);
        p.set_ratio(1.06);
        let src: Vec<f32> = if is_voiced { voiced.clone() } else { vec![0.02; 12_000] };
        for chunk in src.chunks(block) {
            let n = chunk.len();
            p.process(chunk, &mut buf[..n]);
            out.extend_from_slice(&buf[..n]);
        }
    }
    assert_eq!(p.underruns(), 0);
    assert!(out.iter().all(|s| s.is_finite()));
    let peak = out.iter().fold(0.0f32, |m, s| m.max(s.abs()));
    assert!(peak < 4.0, "{peak:.2}");
}

#[test]
fn output_is_finite_for_silence() {
    let mut p = Psola::new(psola_cfg());
    p.set_pitch(0.0, false);
    let out = shifted_by(&mut p, &vec![0.0; 12_000], 256);
    assert!(out.iter().all(|s| s.is_finite()));
}

#[test]
fn reading_stays_a_fixed_delay_behind() {
    let mut plan = psola::Psola::new(480, 43);
    let mut grains = Vec::new();
    let mut taken = 0u64;
    for n in [1usize, 700, 64, 3000, 17] {
        let step = plan.process(&vec![0u32; n], 480, &mut grains);
        taken += n as u64;
        if !step.silent {
            assert_eq!(step.read_from + n as u64, taken - 960);
            assert_eq!(step.ready, n);
        }
        assert!(grains.is_empty());
    }
    assert_eq!(plan.underruns(), 0);
}

#[test]
fn ratio_and_formant_are_held_within_an_octave() {
    let mut plan = psola::Psola::new(480, 43);
    plan.set_ratio(3.0f32.to_bits());
    plan.set_formant(0.1f32.to_bits());
    assert_eq!((float(plan.ratio()), float(plan.formant())), (2.0, 0.5));
    plan.set_pitch(20.0f32.to_bits(), 2400, true);
    assert_eq!(plan.period(), 480);
    plan.set_pitch(5000.0f32.to_bits(), 10, true);
    assert_eq!(plan.period(), 43);
    // A frame without a pitch keeps the period.
    plan.set_pitch(0, 0, false);
    assert_eq!(plan.period(), 43);
}

// The scale.

#[test]
fn midi_hz_roundtrip() {
    for &m in &[40.0f32, 60.0, 69.0, 81.0] {
        let hz = midi_to_hz(m);
        assert!((hz_to_midi(hz) - m).abs() < 1e-3);
    }
    assert!((midi_to_hz(69.0) - 440.0).abs() < 1e-3);
}

#[test]
fn c_major_excludes_black_keys() {
    let key = Key { tonic: 0, scale: ScaleKind::Major };
    assert!(key.contains_midi(60));
    assert!(!key.contains_midi(61));
    assert!(key.contains_midi(62));
    assert!(!key.contains_midi(66));
    assert!(key.contains_midi(71));
    // Keys repeat in every octave, below zero too.
    assert!(key.contains_midi(-12));
    assert!(!key.contains_midi(-11));
}

#[test]
fn quantizes_to_scale_not_chromatic() {
    let key = Key { tonic: 0, scale: ScaleKind::Major };
    assert_eq!(nearest_in_scale(key, 60.9), 60);
    assert_eq!(nearest_in_scale(key, 66.6), 67);
    // A tie goes to the lower note.
    assert_eq!(nearest_in_scale(key, 61.0), 60);
}

#[test]
fn chromatic_scale_keeps_every_semitone() {
    let key = Key { tonic: 0, scale: ScaleKind::Chromatic };
    for m in 55..75 {
        assert!(key.contains_midi(m));
    }
    assert_eq!(nearest_in_scale(key, 61.2), 61);
}

#[test]
fn corrects_steady_flat_note() {
    let cfg = RetuneConfig { retune_ms: 20.0, ..Default::default() };
    let mut r = retuner(&cfg, Key { tonic: 0, scale: ScaleKind::Major });
    let sung = midi_to_hz(69.0 - 0.40);
    let hop = 256;
    let mut ratio = 1.0;
    for _ in 0..(0.4 * 48_000.0 / hop as f32) as usize {
        ratio = float(retune(&mut r, &cfg, sung, hop).ratio);
    }
    let err = cents_between(sung * ratio, 440.0).abs();
    assert!(err < 10.0, "{err:.1}");
}

#[test]
fn preserves_vibrato() {
    let cfg = RetuneConfig { retune_ms: 20.0, ..Default::default() };
    let mut r = retuner(&cfg, Key { tonic: 0, scale: ScaleKind::Major });
    let hop = 256usize;
    let vib_hz = 5.5;
    let vib_cents = 50.0;
    let mut out_min = f32::INFINITY;
    let mut out_max = f32::NEG_INFINITY;
    let frames = (1.0 * SR / hop as f32) as usize;
    for i in 0..frames {
        let t = i as f32 * hop as f32 / SR;
        let dev = vib_cents * (TAU * vib_hz * t).sin();
        let f0 = 440.0 * (dev / 1200.0).exp2();
        let frame = retune(&mut r, &cfg, f0, hop);
        if t > 0.5 {
            let out = f0 * float(frame.ratio);
            out_min = out_min.min(out);
            out_max = out_max.max(out);
        }
    }
    let out_depth = cents_between(out_max, out_min) / 2.0;
    assert!(out_depth > vib_cents * 0.8, "{out_depth:.1}");
}

#[test]
fn does_not_hard_pull_beyond_limit() {
    let cfg = RetuneConfig {
        retune_ms: 0.0,
        intent_ms: 0.0,
        max_correction_cents: 30.0,
        over_limit_ratio: 0.35,
        ..Default::default()
    };
    let mut r = retuner(&cfg, Key { tonic: 0, scale: ScaleKind::Chromatic });
    let sung = midi_to_hz(69.0) * (45.0f32 / 1200.0).exp2();
    let mut frame = retune(&mut r, &cfg, sung, 256);
    for _ in 0..199 {
        frame = retune(&mut r, &cfg, sung, 256);
    }
    assert!(frame.clamped);
    let applied = cents_between(sung * float(frame.ratio), sung).abs();
    assert!(applied < 30.0, "{applied:.1}");
    assert!(applied > 5.0, "{applied:.1}");
}

#[test]
fn scale_quantization_bounds_correction_amount() {
    for (scale, max_expected) in [
        (ScaleKind::Chromatic, 50.0f32),
        (ScaleKind::Major, 100.0),
        (ScaleKind::MinorPentatonic, 150.0),
    ] {
        let key = Key { tonic: 0, scale };
        let mut worst: f32 = 0.0;
        for i in 0..=1200 {
            let midi = 60.0 + i as f32 / 100.0;
            let target = nearest_in_scale(key, midi);
            worst = worst.max(((target as f32 - midi) * 100.0).abs());
        }
        assert!(worst <= max_expected + 1.0, "{scale:?}: {worst:.0}");
    }
}

#[test]
fn zero_retune_snaps_immediately() {
    let cfg = RetuneConfig { retune_ms: 0.0, intent_ms: 0.0, ..Default::default() };
    let mut r = retuner(&cfg, Key { tonic: 0, scale: ScaleKind::Major });
    let sung = midi_to_hz(69.0 - 0.3);
    let frame = retune(&mut r, &cfg, sung, 256);
    let err = cents_between(sung * float(frame.ratio), 440.0).abs();
    assert!(err < 5.0, "{err:.1}");
    assert_eq!(frame.target_midi, 69);
}

#[test]
fn a_pitch_of_zero_is_left_alone() {
    let cfg = RetuneConfig::default();
    let mut r = retuner(&cfg, Key::default());
    let frame = retune(&mut r, &cfg, 0.0, 256);
    assert_eq!(float(frame.ratio), 1.0);
    assert!(!r.initialized);
}

// The noise gate.

const GATE_HOP: usize = 256;

fn gate() -> (noise::NoiseGate, NoiseGateConfig) {
    let cfg = NoiseGateConfig { sample_rate: SR, ..Default::default() };
    (noise_gate(&cfg), cfg)
}

fn teach(g: &mut (noise::NoiseGate, NoiseGateConfig), rms: f32) {
    let (fallen, risen) = noise_steps(&g.0, &g.1, rms, GATE_HOP);
    g.0.update(rms.to_bits(), GATE_HOP, fallen, risen);
}

fn feed(g: &mut (noise::NoiseGate, NoiseGateConfig), rms: f32, secs: f32) {
    let hops = (secs * SR / GATE_HOP as f32) as usize;
    for _ in 0..hops {
        teach(g, rms);
    }
}

fn open(g: &(noise::NoiseGate, NoiseGateConfig), rms: f32) -> bool {
    g.0.is_open(rms.to_bits(), noise_threshold(&g.0).to_bits())
}

fn floor_of(g: &(noise::NoiseGate, NoiseGateConfig)) -> f32 {
    float(g.0.floor())
}

#[test]
fn settles_to_the_room_floor() {
    let mut g = gate();
    feed(&mut g, 0.0017, 1.0);
    assert!((floor_of(&g) - 0.0017).abs() < 0.0002, "{}", floor_of(&g));
}

#[test]
fn stays_shut_during_settle() {
    let mut g = gate();
    teach(&mut g, 0.5);
    assert!(!open(&g, 0.5));
    feed(&mut g, 0.001, 0.5);
    assert!(g.0.settled());
}

#[test]
fn opens_only_above_the_margin() {
    let mut g = gate();
    feed(&mut g, 0.002, 1.0);
    assert!(!open(&g, 0.002 * 3.0));
    assert!(open(&g, 0.002 * 6.0));
}

#[test]
fn a_held_note_must_not_lift_the_floor() {
    let mut g = gate();
    feed(&mut g, 0.002, 1.0);
    let before = floor_of(&g);
    let sung = 0.2;
    assert!(open(&g, sung));
    assert_eq!(floor_of(&g), before);
    assert!(open(&g, sung));
}

#[test]
fn brief_fricatives_barely_move_the_floor() {
    let mut g = gate();
    feed(&mut g, 0.002, 2.0);
    let before = floor_of(&g);
    feed(&mut g, 0.02, 0.08);
    let lift_db = to_dbfs(floor_of(&g)) - to_dbfs(before);
    assert!(lift_db < 2.5, "{lift_db:.2}");
}

#[test]
fn a_sustained_noise_rise_is_eventually_tracked() {
    let mut g = gate();
    feed(&mut g, 0.002, 2.0);
    feed(&mut g, 0.02, 12.0);
    let lift_db = to_dbfs(floor_of(&g)) - to_dbfs(0.002);
    assert!(lift_db > 12.0, "{lift_db:.1}");
}

#[test]
fn falls_fast_when_the_room_gets_quiet() {
    let mut g = gate();
    feed(&mut g, 0.02, 3.0);
    feed(&mut g, 0.0005, 1.0);
    assert!(floor_of(&g) < 0.001, "{}", floor_of(&g));
}

#[test]
fn never_collapses_to_zero() {
    let mut g = gate();
    feed(&mut g, 0.0, 5.0);
    assert!(floor_of(&g) >= float(noise::ABSOLUTE_FLOOR));
    assert!(!open(&g, 0.0));
}

#[test]
fn digital_silence_at_startup_must_not_become_the_floor() {
    let mut g = gate();
    feed(&mut g, 0.0, 0.5);
    assert!(!g.0.settled());
    feed(&mut g, 0.002, 0.5);
    assert!(g.0.settled());
    assert!((floor_of(&g) - 0.002).abs() < 0.0003, "{}", floor_of(&g));
    assert!(!open(&g, 0.004));
}

#[test]
fn already_singing_at_startup_must_not_lock_the_gate_shut() {
    let mut g = gate();
    let singing = 0.5;
    feed(&mut g, singing, 2.0);
    assert!(!g.0.confident());
    assert!(open(&g, singing));
    assert!(open(&g, 0.01));
}

#[test]
fn recovers_once_the_singing_stops() {
    let mut g = gate();
    feed(&mut g, 0.5, 2.0);
    assert!(!g.0.confident());
    feed(&mut g, 0.0017, 1.5);
    assert!(g.0.confident());
    assert!(!open(&g, 0.003));
}

#[test]
fn a_hopeless_room_disables_the_gate_instead_of_blocking() {
    let mut g = gate();
    feed(&mut g, 0.05, 3.0);
    assert!(!g.0.confident());
    assert!(open(&g, 0.05));
}

#[test]
fn dbfs_conversion() {
    assert!((to_dbfs(1.0) - 0.0).abs() < 1e-4);
    assert!((to_dbfs(0.5) + 6.02).abs() < 0.01);
    assert!(to_dbfs(0.0).is_finite());
}

#[test]
fn the_margin_is_held_in_its_range() {
    let mut g = gate().0;
    g.set_margin_db(90.0f32.to_bits());
    assert_eq!(float(g.margin_db()), 40.0);
    g.set_margin_db((-3.0f32).to_bits());
    assert_eq!(float(g.margin_db()), 0.0);
}

// The whole path.

fn corrected(c: &mut Corrector, input: &[f32], block: usize) -> Vec<f32> {
    let mut out = Vec::with_capacity(input.len());
    let mut buf = vec![0.0; block];
    for chunk in input.chunks(block) {
        let n = chunk.len();
        c.process(chunk, &mut buf[..n]);
        out.extend_from_slice(&buf[..n]);
    }
    out
}

#[test]
fn detects_pitch_end_to_end() {
    let mut c = Corrector::new(CorrectorConfig::default());
    let _ = corrected(&mut c, &tone(220.0, 48_000), 256);
    let f = c.core.last_frame();
    assert!(f.is_voiced);
    assert!((float(f.f0_hz) - 220.0).abs() < 3.0, "{}", float(f.f0_hz));
}

#[test]
fn quantizes_toward_scale_tone() {
    let mut cfg = CorrectorConfig::default();
    cfg.key = Key { tonic: 0, scale: ScaleKind::Major };
    cfg.retune.retune_ms = 10.0;
    let mut c = Corrector::new(cfg);
    let sung = midi_to_hz(69.0) * (-45.0f32 / 1200.0).exp2();
    let _ = corrected(&mut c, &tone(sung, 48_000), 256);
    let f = c.core.last_frame();
    assert_eq!(f.target_midi, 69);
    let applied = 1200.0 * float(f.ratio).log2();
    assert!((applied - 45.0).abs() < 15.0, "{applied:.1}");
}

#[test]
fn same_block_size_is_bit_exact() {
    let input = tone(196.0, 32_000);
    let mut a = Corrector::new(CorrectorConfig::default());
    let mut b = Corrector::new(CorrectorConfig::default());
    assert_eq!(corrected(&mut a, &input, 256), corrected(&mut b, &input, 256));
}

#[test]
fn different_block_sizes_are_perceptually_equivalent() {
    let input = tone(196.0, 32_000);
    let mut a = Corrector::new(CorrectorConfig::default());
    let mut b = Corrector::new(CorrectorConfig::default());
    let out_a = corrected(&mut a, &input, 64);
    let out_b = corrected(&mut b, &input, 480);
    let skip = 8_000;
    let mut diff_energy = 0.0f64;
    let mut sig_energy = 0.0f64;
    for (x, y) in out_a[skip..].iter().zip(out_b[skip..].iter()) {
        diff_energy += ((x - y) as f64).powi(2);
        sig_energy += (*x as f64).powi(2);
    }
    let rel = (diff_energy / sig_energy.max(1e-12)).sqrt();
    assert!(rel < 0.05, "{rel}");
    let fa = float(a.core.last_frame().f0_hz);
    let fb = float(b.core.last_frame().f0_hz);
    assert!((fa - fb).abs() < 1.0, "{fa:.1} {fb:.1}");
}

#[test]
fn character_shift_is_applied_on_top_of_retune() {
    let cfg = CorrectorConfig {
        key: Key { tonic: 0, scale: ScaleKind::Chromatic },
        ..Default::default()
    };
    let mut c = Corrector::new(cfg);
    c.core.set_pitch_shift(4.0f32.to_bits());
    let _ = corrected(&mut c, &tone(midi_to_hz(69.0), 48_000), 256);
    let applied = 1200.0 * float(c.core.last_frame().ratio).log2();
    assert!((applied - 400.0).abs() < 40.0, "{applied:.0}");
}

#[test]
fn bypass_also_bypasses_the_character() {
    let mut c = Corrector::new(CorrectorConfig::default());
    c.core.set_pitch_shift(5.0f32.to_bits());
    c.core.set_formant_shift(4.0f32.to_bits());
    c.core.set_bypass(true);
    let _ = corrected(&mut c, &tone(220.0, 32_000), 256);
    assert!((float(c.core.last_frame().ratio) - 1.0).abs() < 1e-6);
}

#[test]
fn tilt_does_not_change_latency() {
    let mut c = Corrector::new(CorrectorConfig::default());
    let before = c.latency_samples();
    c.set_tilt_db_per_oct(3.5);
    assert_eq!(c.latency_samples(), before);
    assert!((float(c.core.tilt_db_per_oct()) - 3.5).abs() < 1e-6);
}

#[test]
fn bypass_also_bypasses_the_tilt() {
    let input = tone(220.0, 24_000);
    let mut plain = Corrector::new(CorrectorConfig::default());
    plain.core.set_bypass(true);
    let mut tilted = Corrector::new(CorrectorConfig::default());
    tilted.core.set_bypass(true);
    tilted.set_tilt_db_per_oct(4.0);
    assert_eq!(corrected(&mut plain, &input, 256), corrected(&mut tilted, &input, 256));
}

#[test]
fn bypass_keeps_latency_identical() {
    let input = tone(196.0, 32_000);
    let mut on = Corrector::new(CorrectorConfig::default());
    let mut off = Corrector::new(CorrectorConfig::default());
    off.core.set_bypass(true);
    assert_eq!(on.latency_samples(), off.latency_samples());
    let a = corrected(&mut on, &input, 256);
    let b = corrected(&mut off, &input, 256);
    assert_eq!(a.len(), b.len());
}

#[test]
fn silence_stays_silent_and_finite() {
    let mut c = Corrector::new(CorrectorConfig::default());
    let out = corrected(&mut c, &vec![0.0; 24_000], 256);
    assert!(out.iter().all(|s| s.is_finite()));
    assert!(out.iter().all(|s| s.abs() < 1e-6));
    assert!(!c.core.last_frame().is_voiced);
}

#[test]
fn reports_clipping() {
    let mut c = Corrector::new(CorrectorConfig::default());
    let input: Vec<f32> = tone(220.0, 24_000).iter().map(|s| s * 1.5).collect();
    let _ = corrected(&mut c, &input, 256);
    assert!(c.core.last_frame().clipping);
}

#[test]
fn no_underruns_end_to_end() {
    let mut c = Corrector::new(CorrectorConfig::default());
    c.core.set_key(Key { tonic: 0, scale: ScaleKind::Major });
    let n = 96_000;
    let input: Vec<f32> = (0..n)
        .map(|i| {
            let t = i as f32 / SR;
            let f = 180.0 + 40.0 * (TAU * 0.5 * t).sin();
            (TAU * f * t).sin()
        })
        .collect();
    let out = corrected(&mut c, &input, 128);
    assert_eq!(c.core.underruns(), 0);
    assert!(out.iter().all(|s| s.is_finite()));
}

#[test]
fn block_sizes_do_not_move_the_analyses() {
    let cfg = CorrectorConfig::default();
    let mut a = Corrector::new(cfg);
    let mut b = Corrector::new(cfg);
    let x = tone(196.0, 1000);
    let _ = corrected(&mut a, &x, 7);
    let _ = corrected(&mut b, &x, 1000);
    assert_eq!(a.core.since_analysis, 1000 % 256);
    assert_eq!(b.core.since_analysis, 1000 % 256);
    assert_eq!(a.core.analysis, b.core.analysis);
}

// Tilt.

fn voiced(f0: f32, formants: &[f32], secs: f32) -> Vec<f32> {
    let n = (secs * SR) as usize;
    let period = (SR / f0).round().max(2.0) as usize;
    let mut x: Vec<f32> = (0..n).map(|i| if i % period == 0 { 1.0 } else { 0.0 }).collect();
    for &f in formants {
        let r = (-std::f32::consts::PI * 110.0 / SR).exp();
        let theta = TAU * f / SR;
        let (a1, a2) = (2.0 * r * theta.cos(), -r * r);
        let (mut y1, mut y2) = (0.0f32, 0.0f32);
        for s in x.iter_mut() {
            let y = *s + a1 * y1 + a2 * y2;
            *s = y;
            y2 = y1;
            y1 = y;
        }
    }
    let peak = x.iter().fold(0.0f32, |m, s| m.max(s.abs()));
    x.iter().map(|s| s / peak.max(1e-9) * 0.5).collect()
}

fn apply(x: &[f32], s: f32) -> Vec<f32> {
    let mut t = Tilt::new(SR);
    t.set_db_per_oct(s);
    let mut y = x.to_vec();
    t.process(&mut y);
    y
}

#[test]
fn calibration_matches_measurement() {
    let x = voiced(150.0, &[700.0, 1300.0, 2700.0], 5.0);
    let base = float(analyze(&x, SR).tilt_db_per_oct);
    for &want in &[2.0f32, -2.0, 3.5, -3.5] {
        let got = float(analyze(&apply(&x, want), SR).tilt_db_per_oct) - base;
        assert!((got - want).abs() < 0.6, "{want:+.1} {got:+.2}");
    }
}

#[test]
fn applying_the_suggestion_closes_the_gap() {
    let mine = voiced(130.0, &[620.0, 1150.0, 2500.0], 5.0);
    let other = voiced(190.0, &[760.0, 1420.0, 3050.0], 5.0);
    let a = analyze(&mine, SR);
    let b = analyze(&other, SR);
    let before = float(match_to(&a, &b).tilt_delta);
    let fixed = analyze(&apply(&mine, before), SR);
    let after = float(match_to(&fixed, &b).tilt_delta);
    assert!(after.abs() < before.abs() * 0.4, "{before:+.2} {after:+.2}");
}

#[test]
fn zero_is_bit_exact_passthrough() {
    let x = voiced(200.0, &[650.0, 1200.0], 1.0);
    assert_eq!(apply(&x, 0.0), x);
}

#[test]
fn opposite_tilts_cancel() {
    let x = voiced(150.0, &[700.0, 1300.0, 2700.0], 4.0);
    let round = apply(&apply(&x, 3.0), -3.0);
    let a = float(analyze(&x, SR).tilt_db_per_oct);
    let b = float(analyze(&round, SR).tilt_db_per_oct);
    assert!((a - b).abs() < 0.5, "{:.2}", a - b);
}

#[test]
fn stays_bounded_at_the_extremes() {
    let max = float(tilt::MAX_DB_PER_OCT);
    for &s in &[max, -max] {
        let mut t = Tilt::new(SR);
        t.set_db_per_oct(s * 10.0);
        assert!(t.db_per_oct().abs() <= max);
        let mut y = voiced(120.0, &[600.0, 1100.0, 2400.0], 3.0);
        t.process(&mut y);
        assert!(y.iter().all(|v| v.is_finite()));
        let peak = y.iter().fold(0.0f32, |m, v| m.max(v.abs()));
        assert!(peak < 8.0, "{peak:.2}");
    }
}

#[test]
fn block_size_does_not_change_the_result() {
    let x = voiced(180.0, &[700.0, 1200.0], 1.0);
    let whole = apply(&x, 2.5);
    let mut t = Tilt::new(SR);
    t.set_db_per_oct(2.5);
    let mut chunked = Vec::with_capacity(x.len());
    for c in x.chunks(144) {
        let mut b = c.to_vec();
        t.process(&mut b);
        chunked.extend_from_slice(&b);
    }
    assert_eq!(whole, chunked);
}

#[test]
fn setting_the_tilt_again_changes_nothing() {
    let mut t = tilt::Tilt::new();
    assert!(!t.set_db_per_oct((-0.0f32).to_bits()));
    assert!(t.set_db_per_oct(9.0f32.to_bits()));
    assert_eq!(float(t.db_per_oct()), 4.0);
    assert!(!t.set_db_per_oct(5.0f32.to_bits()));
    assert!(t.set_db_per_oct(0.00005f32.to_bits()));
    assert!(t.bypass);
}

// Voices.

fn formant_shifted(input: &[f32], f0: f32, semis: f32) -> Vec<f32> {
    let mut p = Psola::new(psola_cfg());
    p.set_pitch(f0, true);
    p.set_ratio(1.0);
    p.set_formant((semis / 12.0).exp2());
    shifted_by(&mut p, input, 256)
}

#[test]
fn estimates_a_known_formant_ratio() {
    let mine = analyze(&voiced(120.0, &[600.0, 1100.0, 2400.0], 5.0), SR);
    let other = analyze(&voiced(200.0, &[750.0, 1400.0, 3000.0], 5.0), SR);
    let fwd = float(match_to(&mine, &other).formant_shift);
    let back = float(match_to(&other, &mine).formant_shift);
    assert!((2.0..=4.5).contains(&fwd), "{fwd:+.2}");
    assert!((fwd + back).abs() < 1.0, "{fwd:+.2} {back:+.2}");
}

#[test]
fn recovers_a_shift_that_we_applied_ourselves() {
    let src = voiced(160.0, &[700.0, 1200.0, 2600.0], 4.0);
    for &applied in &[3.0f32, -3.0, 1.5] {
        let tgt = formant_shifted(&src, 160.0, applied);
        let a = analyze(&src[12_000..], SR);
        let b = analyze(&tgt[12_000..], SR);
        let got = float(match_to(&a, &b).formant_shift);
        assert!((got - applied).abs() <= 1.0, "{applied:+} {got:+.1}");
    }
}

#[test]
fn identical_material_needs_no_shift() {
    let p = analyze(&voiced(180.0, &[650.0, 1100.0, 2500.0], 4.0), SR);
    let m = match_to(&p, &p);
    assert_eq!(float(m.formant_shift), 0.0);
    assert!(float(m.pitch_delta).abs() < 0.01);
}

#[test]
fn a_shorter_vocal_tract_gives_a_positive_shift() {
    let male = analyze(&voiced(120.0, &[600.0, 1100.0, 2400.0], 4.0), SR);
    let female = analyze(&voiced(120.0, &[750.0, 1400.0, 3000.0], 4.0), SR);
    let m = match_to(&male, &female);
    assert!(float(m.formant_shift) > 1.5, "{}", float(m.formant_shift));
}

#[test]
fn pitch_does_not_leak_into_the_formant_estimate() {
    let low = analyze(&voiced(110.0, &[700.0, 1200.0, 2600.0], 4.0), SR);
    let high = analyze(&voiced(220.0, &[700.0, 1200.0, 2600.0], 4.0), SR);
    let m = match_to(&low, &high);
    assert!(float(m.formant_shift).abs() <= 1.0, "{}", float(m.formant_shift));
    assert!((float(m.pitch_delta) - 12.0).abs() < 1.0, "{}", float(m.pitch_delta));
}

#[test]
fn pitch_shift_suggestion_is_always_zero() {
    let a = analyze(&voiced(110.0, &[700.0, 1200.0, 2600.0], 3.0), SR);
    let b = analyze(&voiced(260.0, &[800.0, 1500.0, 3100.0], 3.0), SR);
    assert_eq!(float(match_to(&a, &b).pitch_shift), 0.0);
}

#[test]
fn short_material_is_rejected() {
    let p = analyze(&voiced(180.0, &[700.0, 1200.0], 0.4), SR);
    assert!(!p.is_usable());
    let good = analyze(&voiced(180.0, &[700.0, 1200.0], 4.0), SR);
    assert!(good.is_usable());
    assert_eq!(float(match_to(&p, &good).confidence), 0.0);
}

#[test]
fn silence_is_not_usable() {
    let p = analyze(&vec![0.0; 48_000 * 3], SR);
    assert!(!p.is_usable());
    assert_eq!(float(p.median_f0), 0.0);
}

#[test]
fn brighter_material_reports_positive_tilt_delta() {
    let dark = analyze(&voiced(150.0, &[500.0, 800.0, 1200.0], 4.0), SR);
    let bright = analyze(&voiced(150.0, &[500.0, 2500.0, 4500.0], 4.0), SR);
    assert!(float(match_to(&dark, &bright).tilt_delta) > 0.0);
}

#[test]
fn the_grid_of_an_envelope() {
    let n = timbre::grid_len();
    assert_eq!(n, ((6000.0f32 / 200.0).log2() * 24.0).round() as usize + 1);
    assert_eq!(timbre::overlap(119, 0).count, 119);
    let o = timbre::overlap(119, 16);
    assert_eq!((o.from, o.count, o.enough), (16, 103, true));
    let o = timbre::overlap(119, -16);
    assert_eq!((o.from, o.count, o.enough), (0, 103, true));
    assert!(!timbre::overlap(20, 16).enough);
    assert_eq!(timbre::frame_at(1, 3072), Some(1024));
    assert_eq!(timbre::frame_at(2, 3072), None);
    assert!(timbre::is_kept(63) && !timbre::is_kept(64));
    assert!(!timbre::is_kept(1983) && timbre::is_kept(1984));
}

#[test]
fn the_best_shift_is_the_first_lowest() {
    let mut errs = vec![2.0f32; 33];
    errs[20] = 0.5;
    errs[25] = 0.5;
    errs[0] = f32::INFINITY;
    let b = timbre::best_shift(&lags(&errs));
    assert_eq!((b.shift, float(b.err), float(b.typical)), (4, 0.5, 2.0));
    assert!(b.sides.is_some());
    let none = timbre::best_shift(&lags(&[f32::INFINITY; 33]));
    assert_eq!((none.shift, float(none.typical)), (0, 1.0));
    assert!(none.sides.is_none());
}

// Pitch tracks.

fn vibrato(center: f32, secs: f32) -> Vec<f32> {
    let n = (secs * SR) as usize;
    let mut phase = 0.0f32;
    (0..n)
        .map(|i| {
            let t = i as f32 / SR;
            let f = center * (40.0 / 1200.0 * (TAU * 5.0 * t).sin()).exp2();
            phase += TAU * f / SR;
            phase.sin() * 0.5
        })
        .collect()
}

fn followed(x: &[f32]) -> PitchTrack {
    track_pitch(x, SR, |_| true).expect("not cancelled")
}

fn silenced(f: &mut PitchFrame) {
    f.voiced = false;
    f.f0 = 0;
}

#[test]
fn tracks_a_steady_tone() {
    let t = followed(&half_tone(220.0, 1.0));
    assert!(t.voiced_count() > t.frames.len() / 2);
    let err = 1200.0 * (float(t.median_f0()) / 220.0).log2();
    assert!(err.abs() < 15.0, "{err:.1}");
    assert_eq!(t.frame_pos(3), 384);
}

#[test]
fn corrects_injected_octave_errors() {
    let mut t = followed(&half_tone(196.0, 1.0));
    let mut injected = 0;
    for (i, f) in t.frames.iter_mut().enumerate() {
        if f.voiced && i % 20 == 7 {
            f.f0 = (float(f.f0) * 2.0).to_bits();
            injected += 1;
        }
    }
    assert!(injected > 5);
    let fixed = fix_octaves(&mut t.frames);
    assert!(fixed >= injected * 8 / 10, "{injected} {fixed}");
    let med = float(t.median_f0());
    let outliers = t
        .frames
        .iter()
        .filter(|f| f.voiced && (float(f.f0) / med).log2().abs() > 0.5)
        .count();
    assert_eq!(outliers, 0);
}

#[test]
fn keeps_vibrato() {
    let t = followed(&vibrato(220.0, 2.0));
    let f: Vec<f32> = t.frames.iter().filter(|x| x.voiced).map(|x| float(x.f0)).collect();
    assert!(f.len() > 200);
    let mid = &f[f.len() / 4..f.len() * 3 / 4];
    let med = float(t.median_f0());
    let (lo, hi) = mid.iter().fold((f32::MAX, f32::MIN), |(a, b), v| (a.min(*v), b.max(*v)));
    let span = 1200.0 * (hi / lo).log2();
    assert!(span > 40.0, "{span:.0}");
    assert!((1200.0 * (med / 220.0).log2()).abs() < 20.0);
}

#[test]
fn fills_short_dropouts_but_not_real_breaks() {
    let mut t = followed(&half_tone(200.0, 1.0));
    let n = t.frames.len();
    for f in t.frames[n / 2..n / 2 + 4].iter_mut() {
        silenced(f);
    }
    let big = n / 4;
    for f in t.frames[big..big + offline::MAX_GAP * 3].iter_mut() {
        silenced(f);
    }
    let filled = fill_gaps(&mut t.frames);
    assert_eq!(filled, 4);
    assert!(t.frames[n / 2 + 1].voiced);
    assert!(!t.frames[big + 1].voiced);
}

#[test]
fn does_not_fill_at_the_edges() {
    let mut t = followed(&half_tone(200.0, 0.5));
    for f in t.frames.iter_mut().take(3) {
        silenced(f);
    }
    let n = t.frames.len();
    for f in t.frames[n - 3..].iter_mut() {
        silenced(f);
    }
    fill_gaps(&mut t.frames);
    assert!(!t.frames[0].voiced && !t.frames[n - 1].voiced);
}

#[test]
fn honours_cancellation() {
    let mut calls = 0;
    let out = track_pitch(&half_tone(220.0, 5.0), SR, |_| {
        calls += 1;
        calls < 3
    });
    assert!(out.is_none());
}

#[test]
fn silence_yields_no_voiced_frames() {
    let t = followed(&vec![0.0; 24_000]);
    assert_eq!(t.voiced_count(), 0);
    assert_eq!(float(t.median_f0()), 0.0);
}

#[test]
fn octave_fix_must_precede_median() {
    let mut a = followed(&half_tone(196.0, 0.6)).frames;
    for f in a.iter_mut().skip(20).take(6) {
        if f.voiced {
            f.f0 = (float(f.f0) * 2.0).to_bits();
        }
    }
    let mut b = a.clone();
    fix_octaves(&mut a);
    offline::median_filter(&mut a);
    offline::median_filter(&mut b);
    fix_octaves(&mut b);
    let bad = |t: &Vec<PitchFrame>| {
        t.iter().filter(|f| f.voiced && (float(f.f0) / 196.0).log2().abs() > 0.5).count()
    };
    assert!(bad(&a) <= bad(&b), "{} {}", bad(&a), bad(&b));
    assert_eq!(bad(&a), 0);
}

fn cfg_c_major() -> RecorrectConfig {
    RecorrectConfig {
        key: Key { tonic: 0, scale: ScaleKind::Major },
        retune_ms: 20.0f32.to_bits(),
        intent_ms: 150.0f32.to_bits(),
        ..Default::default()
    }
}

#[test]
fn recorrect_pulls_a_flat_note_onto_the_scale() {
    let sung = midi_to_hz(69.0) * (-45.0f32 / 1200.0).exp2();
    let x = half_tone(sung, 2.0);
    let t = followed(&x);
    let y = recorrect(&x, SR, &t, cfg_c_major(), |_| true).unwrap();
    assert_eq!(y.len(), x.len());
    assert!(y.iter().all(|v| v.is_finite()));
    let out = followed(&y[SR as usize / 2..]);
    let err = 1200.0 * (float(out.median_f0()) / midi_to_hz(69.0)).log2();
    assert!(err.abs() < 25.0, "{err:.0}");
}

#[test]
fn zero_phase_smoothing_has_no_lag() {
    let n = 400;
    let frames: Vec<PitchFrame> = (0..n)
        .map(|i| PitchFrame {
            f0: if i < n / 2 { 200.0f32 } else { 300.0 }.to_bits(),
            voiced: true,
            aperiodicity: 0.05f32.to_bits(),
            rms: 0.3f32.to_bits(),
        })
        .collect();
    let t = PitchTrack { frames, hop: HOP, sample_rate: SR.to_bits(), octave_fixes: 0, gap_fills: 0 };
    let sm = smooth_zero_phase(&t, 60.0);
    let mid = n / 2;
    let geo = (200.0f32 * 300.0).sqrt();
    let err = 1200.0 * (sm[mid] / geo).log2();
    assert!(err.abs() < 120.0, "{:.0} {geo:.0}", sm[mid]);
    assert!((sm[20] - 200.0).abs() < 8.0, "{:.1}", sm[20]);
    assert!((sm[n - 20] - 300.0).abs() < 8.0, "{:.1}", sm[n - 20]);
}

#[test]
fn low_notes_are_not_truncated_offline() {
    let x = half_tone(82.0, 1.5);
    let t = followed(&x);
    assert!(t.voiced_count() > 0);
    let y = recorrect(&x, SR, &t, cfg_c_major(), |_| true).unwrap();
    assert!(y.iter().all(|v| v.is_finite()));
    let peak = y.iter().fold(0.0f32, |m, v| m.max(v.abs()));
    assert!(peak > 0.05 && peak < 4.0, "{peak:.2}");
}

#[test]
fn recorrect_honours_cancellation() {
    let x = half_tone(220.0, 3.0);
    let t = followed(&x);
    let mut calls = 0;
    let y = recorrect(&x, SR, &t, cfg_c_major(), |_| {
        calls += 1;
        calls < 3
    });
    assert!(y.is_none());
}

#[test]
fn recorrect_leaves_what_carries_no_pitch() {
    let x = half_tone(220.0, 0.5);
    let frames = vec![PitchFrame::default(); offline::frame_count(x.len())];
    let t = PitchTrack { frames, hop: HOP, sample_rate: SR.to_bits(), octave_fixes: 0, gap_fills: 0 };
    let y = recorrect(&x, SR, &t, cfg_c_major(), |_| true).unwrap();
    // The start is lost while the delay fills, and the end comes in too late.
    let n = offline::frame_count(x.len()) * HOP;
    assert_eq!(y[256..n - 2], x[256..n - 2]);
}

#[test]
fn silence_between_notes_must_not_poison_the_intent() {
    let sung = midi_to_hz(60.0) * (-45.0f32 / 1200.0).exp2();
    let gap = vec![0.0f32; (SR * 0.15) as usize];
    let mut x = gap.clone();
    x.extend_from_slice(&half_tone(sung, 1.2));
    x.extend_from_slice(&gap);
    let t = followed(&x);
    let y = recorrect(&x, SR, &t, cfg_c_major(), |_| true).unwrap();
    let mid = &y[(SR * 0.5) as usize..(SR * 1.1) as usize];
    let out = followed(mid);
    assert!(out.voiced_count() > 0);
    let err = 1200.0 * (float(out.median_f0()) / midi_to_hz(60.0)).log2();
    assert!(err.abs() < 25.0, "{err:.0}");
}

#[test]
fn hold_fill_bridges_holes_and_clamps_edges() {
    let mut v = vec![0.0, 0.0, 10.0, 0.0, 0.0, 0.0, 20.0, 0.0];
    let valid = vec![false, false, true, false, false, false, true, false];
    hold_fill(&mut v, &valid);
    assert_eq!(&v[..2], &[10.0, 10.0]);
    assert_eq!(v[7], 20.0);
    assert!((v[3] - 12.5).abs() < 1e-5, "{}", v[3]);
    assert!((v[4] - 15.0).abs() < 1e-5, "{}", v[4]);
    assert!((v[5] - 17.5).abs() < 1e-5, "{}", v[5]);
}

#[test]
fn hold_fill_survives_all_invalid() {
    let mut v = vec![1.0, 2.0, 3.0];
    hold_fill(&mut v, &vec![false, false, false]);
    assert_eq!(v, vec![1.0, 2.0, 3.0]);
}

#[test]
fn the_median_filter_takes_spikes_out() {
    let pitch = |hz: f32| PitchFrame { f0: hz.to_bits(), voiced: hz > 0.0, aperiodicity: 0, rms: 0 };
    let mut v: Vec<PitchFrame> = [100.0, 101.0, 900.0, 102.0, 0.0, 103.0].map(pitch).to_vec();
    offline::median_filter(&mut v);
    let got: Vec<f32> = v.iter().map(|f| float(f.f0)).collect();
    // Each is a median of the values that were there before.
    assert_eq!(got, vec![101.0, 102.0, 102.0, 103.0, 0.0, 103.0]);
    assert!(!v[4].voiced);
}

#[test]
fn windows_end_with_their_frame() {
    let x: Vec<u32> = (1..=300).collect();
    let mut w = vec![9u32; 200];
    offline::fill_window(&x, 0, 0, &mut w);
    assert!(w[..72].iter().all(|v| *v == 0));
    assert_eq!((w[72], w[199]), (1, 128));
    offline::fill_window(&x, 1, 0, &mut w);
    assert_eq!((w[0], w[199]), (57, 256));
    let mut out = vec![1, 2, 3, 4, 5];
    offline::undo_delay(&mut out, 2, 0);
    assert_eq!(out, vec![3, 4, 5, 0, 0]);
    offline::undo_delay(&mut out, 5, 7);
    assert_eq!(out, vec![3, 4, 5, 0, 0]);
    assert_eq!(offline::frame_span(2, 128, 300), Some((256, 300)));
    assert_eq!(offline::frame_span(3, 128, 300), None);
}

// Scoring.

fn frames_from(truth: &[f32], hop: usize, map: impl Fn(f32) -> (f32, bool)) -> Vec<Frame> {
    (0..truth.len() / hop)
        .map(|i| {
            let end = i * hop + hop;
            let start = end.saturating_sub(SCORE_WINDOW);
            let win = &truth[start..end.min(truth.len())];
            let voiced_n = win.iter().filter(|v| **v > 0.0).count();
            let mean = if voiced_n == win.len() && !win.is_empty() {
                (win.iter().map(|v| v.log2()).sum::<f32>() / win.len() as f32).exp2()
            } else {
                0.0
            };
            let (f0, voiced) = map(mean);
            Frame { window_end: end, f0: f0.to_bits(), voiced }
        })
        .collect()
}

#[test]
fn a_perfect_estimator_scores_perfectly() {
    let (_, truth) = synth(|_| 220.0, 1.0, SR, 1.0, None);
    let fr = frames_from(&truth, 128, |m| (m, m > 0.0));
    let s = score(&truth, &fr, SCORE_WINDOW);
    assert!(s.evaluated > 100, "{s:?}");
    assert_eq!(s.rpa, 1.0, "{s:?}");
    assert_eq!(s.rca, 1.0, "{s:?}");
    assert_eq!(s.octave_error, 0.0);
    assert_eq!(s.voicing_recall, 1.0);
}

#[test]
fn octave_halving_shows_up_as_rca_minus_rpa() {
    let (_, truth) = synth(|_| 220.0, 1.0, SR, 1.0, None);
    let fr = frames_from(&truth, 128, |m| (m / 2.0, m > 0.0));
    let s = score(&truth, &fr, SCORE_WINDOW);
    assert_eq!(s.rpa, 0.0, "{s:?}");
    assert_eq!(s.rca, 1.0, "{s:?}");
    assert!((s.octave_error - 1.0).abs() < 1e-6, "{s:?}");
}

#[test]
fn the_fifty_cent_threshold_is_where_it_says() {
    let (_, truth) = synth(|_| 220.0, 1.0, SR, 1.0, None);
    for (off, want) in [(30.0f32, 1.0f32), (80.0, 0.0)] {
        let fr = frames_from(&truth, 128, |m| (m * (off / 1200.0).exp2(), m > 0.0));
        let s = score(&truth, &fr, SCORE_WINDOW);
        assert_eq!(s.rpa, want, "{off}");
    }
}

#[test]
fn silence_everywhere_is_recall_zero_not_accuracy_zero() {
    let (_, truth) = synth(|_| 220.0, 1.0, SR, 1.0, None);
    let fr = frames_from(&truth, 128, |_| (0.0, false));
    let s = score(&truth, &fr, SCORE_WINDOW);
    assert_eq!(s.voicing_recall, 0.0);
    assert_eq!(s.voicing_false_alarm, 0.0);
    assert_eq!(s.evaluated, 0);
}

#[test]
fn synth_is_not_a_bare_sine() {
    let (x, _) = synth(|_| 220.0, 0.5, SR, 1.0, None);
    let rms = (x.iter().map(|v| v * v).sum::<f32>() / x.len() as f32).sqrt();
    assert!(rms > 0.01, "{rms}");
    let zc = x.windows(2).filter(|w| w[0].signum() != w[1].signum()).count();
    let periods = 0.5 * 220.0;
    assert!(zc as f32 > periods * 4.0, "{zc}");
}

#[test]
fn every_probe_has_truth_aligned_with_samples() {
    for p in probes(SR) {
        assert_eq!(p.samples.len(), p.truth.len(), "{}", p.name);
        assert!(p.truth.iter().any(|v| *v > 0.0), "{}", p.name);
    }
}

#[test]
fn windows_with_a_jump_or_a_breath_are_not_compared() {
    let mut truth = vec![220.0f32; 100];
    let frame = Frame { window_end: 100, f0: 220.0f32.to_bits(), voiced: true };
    assert_eq!(score(&truth, &[frame], 100).evaluated, 1);
    for v in truth[50..].iter_mut() {
        *v = 330.0;
    }
    let s = score(&truth, &[frame], 100);
    assert_eq!((s.evaluated, s.voiced_truth), (0, 1));
    truth[0] = 0.0;
    assert_eq!(score(&truth[..50], &[frame], 100).evaluated, 0);
    let false_alarm = score(&[0.0; 10], &[frame], 100);
    assert_eq!((false_alarm.unvoiced_truth, false_alarm.voicing_false_alarm), (1, 1.0));
}

#[test]
fn the_noise_of_the_material_goes_on() {
    let mut st = 0x2545F491_4F6CDD1Du64;
    let mut want = st;
    for _ in 0..1000 {
        want ^= want << 13;
        want ^= want >> 7;
        want ^= want << 17;
        st = next_noise(st);
        assert_eq!(st, want);
    }
}

#[test]
fn bypass_and_settings_leave_the_delay_alone() {
    let mut c = Corrector::new(CorrectorConfig::for_sample_rate(48_000.0));
    let delay = c.latency_samples();
    assert!(delay > 0);
    c.core.set_bypass(true);
    assert_eq!(c.latency_samples(), delay);
    c.core.set_pitch_shift(7.0f32.to_bits());
    c.core.set_formant_shift((-3.0f32).to_bits());
    c.set_tilt_db_per_oct(2.0);
    assert_eq!(c.latency_samples(), delay);
}

// What holds of whole runs.

#[test]
fn a_silent_recording_matches_itself_without_a_shift() {
    let p = analyze(&vec![0.0; 144_000], SR);
    let m = match_to(&p, &p);
    assert_eq!(float(m.formant_shift), 0.0);
    assert_eq!(float(m.pitch_shift), 0.0);
    assert_eq!(float(m.pitch_delta), 0.0);
    assert_eq!(float(m.confidence), 0.0);
    assert_eq!(float(m.tilt_delta), 0.0);
}

#[test]
fn no_shift_wins_where_it_leaves_no_error() {
    let b = timbre::best_shift(&lags(&[0.0f32; 33]));
    assert_eq!((b.shift, float(b.err)), (0, 0.0));
    let mut errs = [1.0f32; 33];
    errs[3] = 0.0;
    errs[16] = -0.0;
    assert_eq!(timbre::best_shift(&lags(&errs)).shift, 0);
    errs[16] = 0.1;
    assert_eq!(timbre::best_shift(&lags(&errs)).shift, -13);
}

#[test]
fn a_shift_at_the_edge_is_not_refined() {
    let mut errs = [1.0f32; 33];
    errs[0] = 0.25;
    let b = timbre::best_shift(&lags(&errs));
    assert_eq!(b.shift, -16);
    assert!(b.sides.is_none());
    errs[31] = 0.125;
    let b = timbre::best_shift(&lags(&errs));
    assert_eq!((b.shift, b.sides.is_some()), (15, true));
}

#[test]
fn a_frame_may_pass_the_noise_gate_without_a_pitch() {
    let mut c = Corrector::new(CorrectorConfig::default());
    let quiet: Vec<f32> = pseudo_random(48_000, 7).iter().map(|s| s * 0.002).collect();
    let _ = corrected(&mut c, &quiet, 256);
    assert!(!c.core.last_frame().gate_open);
    let mut passed = 0;
    let mut buf = vec![0.0; 256];
    for chunk in pseudo_random(48_000, 11).chunks_exact(256) {
        c.process(chunk, &mut buf);
        let f = c.core.last_frame();
        if f.gate_open && !f.is_voiced {
            passed += 1;
            assert_eq!((float(f.f0_hz), float(f.ratio)), (0.0, 1.0));
            assert_eq!((f.target_midi, f.clamped), (0, false));
        }
    }
    assert!(passed > 0);
}

#[test]
fn without_delay_earlier_frames_leave_no_trace() {
    let cfg = RetuneConfig { retune_ms: 0.0, intent_ms: 0.0, ..Default::default() };
    let key = Key { tonic: 0, scale: ScaleKind::Major };
    let mut fresh = retuner(&cfg, key);
    let mut used = retuner(&cfg, key);
    for hz in [110.0, 523.0, 87.5] {
        let _ = retune(&mut used, &cfg, hz, 256);
    }
    let sung = midi_to_hz(64.3);
    let a = retune(&mut fresh, &cfg, sung, 256);
    let b = retune(&mut used, &cfg, sung, 256);
    assert_eq!((a.target_midi, a.clamped), (b.target_midi, b.clamped));
    assert!((float(a.ratio) - float(b.ratio)).abs() < 1e-5);
    let before = used;
    let idle = retune(&mut used, &cfg, -1.0, 256);
    assert_eq!((float(idle.ratio), idle.clamped), (1.0, false));
    assert_eq!(used, before);
}

#[test]
fn a_settled_floor_moves_only_towards_the_level() {
    let mut g = gate();
    feed(&mut g, 0.002, 1.0);
    assert!(g.0.settled());
    let before = g.0;
    teach(&mut g, 1e-5);
    assert_eq!(g.0, before);
    teach(&mut g, 0.01);
    assert!(float(before.floor) < floor_of(&g) && floor_of(&g) < 0.01);
    let high = floor_of(&g);
    teach(&mut g, 0.001);
    assert!(0.001 < floor_of(&g) && floor_of(&g) < high);
    assert!(g.0.settled());
}

#[test]
fn the_order_of_scored_frames_does_not_matter() {
    let (_, truth) = synth(|t| 200.0 + 40.0 * t, 1.0, SR, 1.0, None);
    let mut fr = frames_from(&truth, 128, |m| (m * 1.01, m > 0.0));
    for (i, f) in fr.iter_mut().enumerate() {
        if i % 5 == 0 {
            f.f0 = (float(f.f0) * 0.5).to_bits();
        }
    }
    let a = score(&truth, &fr, SCORE_WINDOW);
    fr.reverse();
    let b = score(&truth, &fr, SCORE_WINDOW);
    assert_eq!((a.evaluated, a.rpa, a.rca), (b.evaluated, b.rpa, b.rca));
    assert_eq!((a.median_cents, a.p90_cents), (b.median_cents, b.p90_cents));
    assert!(a.rpa < a.rca);
    assert!((a.rca - a.rpa - a.octave_error).abs() < 1e-6);
    assert!(a.median_cents <= a.p90_cents && a.p90_cents <= 50.0);
    assert_eq!(a.voiced_truth + a.unvoiced_truth, fr.len());
}

#[test]
fn a_pitch_that_is_no_number_is_compared_and_wrong() {
    let truth = vec![220.0f32; 100];
    let frame = Frame { window_end: 100, f0: f32::NAN.to_bits(), voiced: true };
    let s = score(&truth, &[frame], 100);
    assert_eq!((s.evaluated, s.rpa, s.rca), (1, 0.0, 0.0));
    let zero = Frame { f0: 0, ..frame };
    assert_eq!(score(&truth, &[zero], 100).evaluated, 0);
}

#[test]
fn a_dropout_beside_a_pitch_that_is_no_number_is_closed() {
    let mut t = followed(&half_tone(200.0, 0.5));
    let m = t.frames.len() / 2;
    silenced(&mut t.frames[m]);
    t.frames[m + 1].f0 = f32::NAN.to_bits();
    assert_eq!(fill_gaps(&mut t.frames), 1);
    assert!(t.frames[m].voiced);
    silenced(&mut t.frames[m]);
    t.frames[m + 1].f0 = (-1.0f32).to_bits();
    assert_eq!(fill_gaps(&mut t.frames), 0);
}

#[test]
fn putting_a_track_right_takes_no_voice_away() {
    let x = vibrato(220.0, 1.0);
    let mut raw = track_pitch_raw(&x, SR, |_| true).expect("not cancelled");
    let before: Vec<bool> = raw.frames.iter().map(|f| f.voiced).collect();
    fix_octaves(&mut raw.frames);
    fill_gaps(&mut raw.frames);
    assert_eq!(raw.frames.len(), before.len());
    for (f, was) in raw.frames.iter().zip(before) {
        assert!(f.voiced || !was);
    }
}

#[test]
fn an_analysis_leaves_nothing_for_the_next() {
    let mut used = Yin::new(YinConfig::default());
    let n = used.required_len();
    let mut x = tone(220.0, n);
    let _ = used.analyze(&harmonic(97.0, SR, n));
    let a = used.analyze(&x);
    x.extend(pseudo_random(500, 3));
    let b = Yin::new(YinConfig::default()).analyze(&x);
    assert_eq!(a, b);
    assert!(a.is_voiced && float(a.f0_hz) > 0.0);
    assert!(float(a.aperiodicity) < 2.0 * YinConfig::default().threshold);
}

#[test]
fn unvoiced_samples_come_out_bit_by_bit() {
    let input: Vec<f32> = pseudo_random(20_000, 99);
    for block in [64usize, 256, 1000, 4500] {
        let mut p = Psola::new(psola_cfg());
        p.set_pitch(0.0, false);
        let out = shifted_by(&mut p, &input, block);
        let delay = p.latency_samples() as usize;
        let first = delay.div_ceil(block) * block;
        assert!(out[..first].iter().all(|s| *s == 0.0), "{block}");
        assert_eq!(out[first..], input[first - delay..input.len() - delay], "{block}");
        assert_eq!(p.underruns(), 0);
    }
}

#[test]
fn progress_is_reported_every_64th_frame_until_refused() {
    for (frames, refuse_at, want, finished) in [
        (0usize, usize::MAX, vec![], true),
        (1, usize::MAX, vec![0usize], true),
        (64, usize::MAX, vec![0], true),
        (130, usize::MAX, vec![0, 64, 128], true),
        (130, 64, vec![0, 64], false),
        (65, 64, vec![0, 64], false),
        (130, 0, vec![0], false),
        // No report is due there, so no refusal counts.
        (130, 65, vec![0, 64, 128], true),
    ] {
        let mut told = Vec::new();
        let mut through = 0;
        let mut step = offline::first_frame(frames);
        while let TrackStep::Frame(i) = step {
            assert_eq!(i, through);
            through += 1;
            if offline::report_due(i) {
                told.push(i);
            }
            step = offline::after_frame(i, frames, i != refuse_at);
        }
        assert_eq!(told, want, "{frames} {refuse_at}");
        assert_eq!(step == TrackStep::Done, finished, "{frames} {refuse_at}");
        assert_eq!(step == TrackStep::Stop, !finished, "{frames} {refuse_at}");
        assert_eq!(through == frames, finished || refuse_at + 1 == frames);
    }
}

#[test]
fn tracking_tells_how_far_it_is_and_then_that_it_is_done() {
    let mut told = Vec::new();
    let t = track_pitch(&half_tone(220.0, 0.5), SR, |p| {
        told.push(p);
        true
    });
    let n = t.expect("not cancelled").frames.len();
    assert_eq!(told.len(), n.div_ceil(64) + 1);
    assert_eq!((told[0], told[1]), (0.0, 64.0 / n as f32));
    assert_eq!(told.last(), Some(&1.0));
    assert!(told.windows(2).all(|w| w[0] < w[1]));
}

#[test]
fn an_unvoiced_frame_is_heard_without_pitch() {
    let est = yin::PitchEstimate {
        f0_hz: 123.0f32.to_bits(),
        is_voiced: false,
        aperiodicity: 0.7f32.to_bits(),
    };
    let f = PitchFrame::heard(est, 0.1f32.to_bits());
    assert_eq!((float(f.f0), f.voiced), (0.0, false));
    assert_eq!((float(f.aperiodicity), float(f.rms)), (0.7, 0.1));
    let f = PitchFrame::heard(yin::PitchEstimate { is_voiced: true, ..est }, 0);
    assert_eq!((float(f.f0), f.voiced), (123.0, true));
    let t = PitchTrack::raw(vec![f; 3], SR.to_bits());
    assert_eq!((t.frames.len(), t.hop, t.octave_fixes, t.gap_fills), (3, 128, 0, 0));
}

#[test]
fn confidence_is_held_between_zero_and_one() {
    let p = analyze(&voiced(150.0, &[500.0, 1500.0, 2500.0], 4.0), SR);
    assert!(p.is_usable());
    for (given, want) in [(-0.5f32, 0.0f32), (0.25, 0.25), (1.5, 1.0)] {
        let m = timbre::matched(&p, &p, 0, given.to_bits(), 0, 0);
        assert_eq!(float(m.confidence), want);
    }
}

#[test]
fn a_reset_tilt_starts_over() {
    let x = pseudo_random(512, 5);
    let mut fresh = Tilt::new(SR);
    fresh.set_db_per_oct(3.0);
    let mut want = x.clone();
    fresh.process(&mut want);
    let mut used = Tilt::new(SR);
    used.set_db_per_oct(3.0);
    used.process(&mut pseudo_random(300, 6));
    used.reset();
    let mut got = x;
    used.process(&mut got);
    assert_eq!(got, want);
}

#[test]
fn a_recording_without_voice_is_handed_back_in_its_place() {
    let x: Vec<f32> = pseudo_random(12_800, 21);
    let frames = vec![PitchFrame::default(); x.len() / HOP];
    let t = PitchTrack::raw(frames, SR.to_bits());
    let y = recorrect(&x, SR, &t, RecorrectConfig::default(), |_| true).expect("not cancelled");
    // Without any pitch the longest period is one sample.
    let delay: usize = 2;
    let first = delay.div_ceil(HOP) * HOP - delay;
    assert!(first < HOP);
    assert!(y[..first].iter().all(|s| *s == 0.0));
    assert_eq!(y[first..x.len() - delay], x[first..x.len() - delay]);
    assert!(y[x.len() - delay..].iter().all(|s| *s == 0.0));
}
