//! Devices, sample formats, the path between the two audio threads, settings,
//! measurements and reports.
use wego_voice::backend::{
    after_failure, agreed_rate, choose_rate, com_usable, first_step, frames_of, min_period,
    pick_device, poll, supports_rate, whole_frames, BackendConfig, BackendInfo, BackendKind,
    Negotiation, Outcome, Poll, StartStep, CHANGED_MODE,
};
use wego_voice::duplex::{self, bring_to, ring_capacity, scratch_len, DuplexConfig};
use wego_voice::engine::EngineConfig;
use wego_voice::latency::{find_onset, peak, ImpulseProbe, LatencyStats, BURST_LEN};
use wego_voice::metrics::{Metrics, MetricsSnapshot};
use wego_voice::params::{parse_key, scale_from_index, scale_to_index, Params};
use wego_voice::pcm::{clip, decode_sample, encode_frame, SampleType};
use wego_voice::priority::{was_promoted, Promotions};
use wego_voice::report::{
    blame, blocks, caution, f0_floor_fits, is_unsteady, judge, no_echo, priority, surroundings,
    sweep_size, target_fill_fits, Bar, Blame, Blocks, Caution, Found, NoEcho, Poll as RoundPoll,
    Priority, Rounds, Surroundings, Sweep, SWEEP_STEPS,
};
use wego_voice::scale::{Key, ScaleKind, SEMITONE_NAMES};
use wego_voice::single;
use wego_voice::sizes::next_power_of_two;
use wego_voice::sorting::{in_order, nth, sorted};
use wego_voice::survey::{is_within, outlook, periods_to_try, Caps, Outlook, Period, Route};
use wego_voice::thresholds::{verdict, LATENCY_NO_GO_MS};
use wego_voice::wav::Sample;

fn f(b: u32) -> f32 {
    f32::from_bits(b)
}

fn patterns(x: &[f32]) -> Vec<u32> {
    x.iter().map(|s| s.to_bits()).collect()
}

// Devices.

#[test]
fn parses_backend_names() {
    assert_eq!(BackendKind::parse("auto"), Some(BackendKind::Auto));
    assert_eq!(BackendKind::parse("cpal"), Some(BackendKind::Cpal));
    assert_eq!(BackendKind::parse("SHARED"), Some(BackendKind::Cpal));
    assert_eq!(BackendKind::parse("nonsense"), None);
    assert_eq!(BackendKind::parse("exclusive"), Some(BackendKind::WasapiExclusive));
}

fn info_fill(in_frames: u32, out_frames: u32, dsp: f32, fill: f32) -> BackendInfo {
    BackendInfo { target_fill_blocks: fill.to_bits(), ..info(in_frames, out_frames, dsp) }
}

fn info(in_frames: u32, out_frames: u32, dsp: f32) -> BackendInfo {
    BackendInfo {
        backend: "test".into(),
        exclusive: false,
        host: "test".into(),
        input_device: "in".into(),
        output_device: "out".into(),
        sample_rate: 48_000,
        input_channels: 2,
        output_channels: 2,
        requested_buffer_frames: 256,
        input_block_frames: in_frames,
        output_block_frames: out_frames,
        input_format: "f32".into(),
        output_format: "f32".into(),
        target_fill_blocks: 2.5f32.to_bits(),
        algorithmic_ms: dsp.to_bits(),
        realtime_priority: true,
        fallback_reason: None,
    }
}

fn theoretical_latency_ms(i: &BackendInfo) -> f32 {
    let fill = i.output_block() as f32 * f(i.target_fill_blocks);
    assert_eq!(i.io_frames(fill as u32), i.io_frames(0) + fill as u64);
    (i.io_frames(0) as f32 + fill) / i.sample_rate as f32 * 1000.0 + f(i.algorithmic_ms)
}

#[test]
fn latency_formula_matches_measured_cases() {
    let prod = info_fill(96, 144, 15.42, 2.5);
    assert!((theoretical_latency_ms(&prod) - 29.92).abs() < 0.02, "{}", theoretical_latency_ms(&prod));
    assert!(theoretical_latency_ms(&prod) < 30.0);
    let under_buffered = info_fill(96, 144, 20.0, 1.5);
    assert!((theoretical_latency_ms(&under_buffered) - 31.5).abs() < 0.02);
    let shared = info_fill(480, 480, 20.0, 2.5);
    assert!(theoretical_latency_ms(&shared) > 50.0);
}

#[test]
fn each_fill_block_costs_one_output_block() {
    let a = info_fill(96, 144, 0.0, 1.5);
    let b = info_fill(96, 144, 0.0, 2.5);
    let expected = 144.0 / 48_000.0 * 1000.0;
    let diff = theoretical_latency_ms(&b) - theoretical_latency_ms(&a);
    assert!((diff - expected).abs() < 0.01, "{expected:.2} {diff:.2}");
}

#[test]
fn ring_target_absorbs_a_full_capture_block() {
    let i = info(96, 144, 0.0);
    let io_frames = theoretical_latency_ms(&i) / 1000.0 * 48_000.0;
    let ring = 144.0 * f(i.target_fill_blocks) + 96.0;
    assert!(ring - 144.0 >= 96.0);
    assert!((io_frames - (96.0 + ring + 144.0)).abs() < 1.0);
}

#[test]
fn larger_capture_block_costs_twice() {
    let a = info(96, 144, 0.0);
    let b = info(144, 144, 0.0);
    let expected = 2.0 * (144.0 - 96.0) / 48_000.0 * 1000.0;
    let diff = theoretical_latency_ms(&b) - theoretical_latency_ms(&a);
    assert!((diff - expected).abs() < 0.01, "{expected:.3} {diff:.3}");
}

#[test]
fn falls_back_to_requested_before_startup() {
    let pending = info(0, 0, 20.0);
    assert!(theoretical_latency_ms(&pending) > 20.0);
    assert!(!pending.buffer_size_honored());
    assert_eq!((pending.input_block(), pending.output_block()), (256, 256));
}

#[test]
fn blocks_are_taken_over_as_measured() {
    let mut m = Metrics::new();
    m.actual_input_block = 480;
    m.actual_output_block = 441;
    let mut i = info(0, 0, 0.0);
    i.refresh_shared(&m);
    assert_eq!((i.input_block_frames, i.output_block_frames), (480, 441));
    i.set_fallback_reason(Some("忙".to_string()));
    assert_eq!(i.fallback_reason.as_deref(), Some("忙"));
}

#[test]
fn starting_falls_back_step_by_step() {
    assert_eq!(first_step(BackendKind::Cpal), StartStep::Shared);
    assert_eq!(first_step(BackendKind::WasapiExclusive), StartStep::Exclusive);
    let mut step = first_step(BackendKind::Auto);
    let mut waits = Vec::new();
    for _ in 0..20 {
        step = match step {
            StartStep::Attempt(n) => after_failure(n),
            StartStep::RetryAfter { ms, attempt } => {
                waits.push(ms);
                StartStep::Attempt(attempt)
            }
            other => other,
        };
    }
    assert_eq!(step, StartStep::Fallback);
    assert_eq!(waits, vec![150, 300, 450]);
}

#[test]
fn threads_are_waited_for_and_given_up() {
    assert_eq!(poll(1, 0), Poll::Ready);
    assert_eq!(poll(2, 0), Poll::Failed);
    assert_eq!(poll(0, 10), Poll::Wait);
    assert_eq!(poll(0, 3_001), Poll::TimedOut);
    assert!(com_usable(false, 0));
    assert!(com_usable(true, CHANGED_MODE));
    assert!(!com_usable(true, -1));
    assert_eq!(agreed_rate(48_000, 48_000), Some(48_000));
    assert_eq!(agreed_rate(48_000, 44_100), None);
}

#[test]
fn exclusive_mode_is_negotiated_in_order() {
    assert_eq!(min_period(30_000, 48_000), 144);
    assert_eq!(min_period(1, 48_000), 32);
    assert_eq!(frames_of(100_000, 44_100), 441);
    assert_eq!(frames_of(-1, 48_000), 0);
    let mut tried = Vec::new();
    let mut at = Some(Negotiation::first());
    while let Some(n) = at {
        tried.push((n.candidate().1, n.frames(144)));
        at = n.next(if tried.len() < 4 { Outcome::PeriodRefused } else { Outcome::FormatRefused });
    }
    assert_eq!(
        tried,
        vec![
            ("f32", 144),
            ("f32", 288),
            ("f32", 432),
            ("int24-in-32", 144),
            ("int24", 144),
            ("int16", 144)
        ]
    );
}

#[test]
fn devices_are_found_by_a_part_of_their_name() {
    let names = vec![None, Some("USB 麦克风".to_string()), Some("Realtek HD".to_string())];
    assert_eq!(pick_device(&names, "麦克"), Some(1));
    assert_eq!(pick_device(&names, "HD"), Some(2));
    assert_eq!(pick_device(&names, "none"), None);
    assert!(supports_rate(&vec![(8_000, 16_000), (44_100, 48_000)], 48_000));
    assert!(!supports_rate(&vec![(8_000, 16_000)], 48_000));
    assert_eq!(choose_rate(Some(48_000), true, 44_100), 48_000);
    assert_eq!(choose_rate(Some(48_000), false, 44_100), 44_100);
    assert_eq!(whole_frames(1001, 2, 4096), 500);
    assert_eq!(whole_frames(1001, 2, 100), 100);
}

#[test]
fn configurations_have_their_defaults() {
    let e = EngineConfig::default();
    let b = e.to_backend();
    assert_eq!(b.buffer_frames, e.buffer_frames);
    assert_eq!(b.kind, e.backend);
    assert_eq!(f(BackendConfig::default().target_fill_blocks), 2.5);
    assert_eq!(e.probe_rate(), e.sample_rate.unwrap_or(48_000));
}

// Sample formats.

fn whole(v: f32, store_bits: usize, ty: SampleType) -> Sample {
    let v = f(clip(v.to_bits()));
    match (ty, store_bits) {
        (SampleType::Int, 16) => Sample::Pcm16((v * 32_767.0) as i16),
        (SampleType::Int, 24) => Sample::Pcm24((v * 8_388_607.0) as i32),
        (SampleType::Int, _) => Sample::Pcm32((v as f64 * 2_147_483_647.0) as i32),
        _ => Sample::Float32(v.to_bits()),
    }
}

fn part(s: Option<Sample>) -> f32 {
    match s {
        Some(Sample::Pcm16(v)) => v as f32 / 32_768.0,
        Some(Sample::Pcm24(v)) => v as f32 / 8_388_608.0,
        Some(Sample::Pcm32(v)) => v as f32 / 2_147_483_648.0,
        Some(Sample::Float32(b)) => f(b),
        _ => 0.0,
    }
}

fn roundtrip(v: f32, store_bits: usize, ty: SampleType) -> f32 {
    let mut buf = vec![0u8; store_bits / 8];
    assert!(encode_frame(&mut buf, 0, 1, store_bits, ty, whole(v, store_bits, ty)));
    part(decode_sample(&buf, 0, 0, 1, store_bits, ty))
}

#[test]
fn sample_roundtrip_within_quantization_error() {
    let cases = [
        (16usize, SampleType::Int, 1.0 / 32_768.0),
        (24, SampleType::Int, 1.0 / 8_388_608.0),
        (32, SampleType::Int, 1.0 / 2_147_483_648.0),
        (32, SampleType::Float, 1e-7),
    ];
    for (bits, ty, step) in cases {
        for v in [-0.9f32, -0.5, -0.001, 0.0, 0.001, 0.5, 0.9] {
            let back = roundtrip(v, bits, ty);
            let err = (back - v).abs();
            assert!(err <= step * 2.0, "{bits} {ty:?}: {v} {back}");
        }
    }
}

#[test]
fn clamps_instead_of_wrapping() {
    for (bits, ty) in [(16usize, SampleType::Int), (24, SampleType::Int), (32, SampleType::Int)] {
        let hot = roundtrip(1.8, bits, ty);
        assert!(hot > 0.9, "{bits}: {hot}");
        let cold = roundtrip(-1.8, bits, ty);
        assert!(cold < -0.9, "{bits}: {cold}");
    }
}

fn encode_from_mono(mono: &[f32], raw: &mut Vec<u8>, channels: usize, bits: usize, ty: SampleType) {
    for (i, &v) in mono.iter().enumerate() {
        if !encode_frame(raw, i, channels, bits, ty, whole(v, bits, ty)) {
            return;
        }
    }
}

fn decode_to_mono(raw: &[u8], mono: &mut [f32], channels: usize, bits: usize, ty: SampleType) {
    for (i, slot) in mono.iter_mut().enumerate() {
        let sum: f32 = (0..channels).map(|c| part(decode_sample(raw, i, c, channels, bits, ty))).sum();
        *slot = sum / channels as f32;
    }
}

#[test]
fn interleave_roundtrip_stereo() {
    let mono_in = [0.25f32, -0.5, 0.75, 0.0];
    let channels = 2;
    let bits = 16;
    let ty = SampleType::Int;
    let mut raw = vec![0u8; mono_in.len() * channels * (bits / 8)];
    encode_from_mono(&mono_in, &mut raw, channels, bits, ty);
    let mut mono_out = vec![0.0f32; mono_in.len()];
    decode_to_mono(&raw, &mut mono_out, channels, bits, ty);
    for (a, b) in mono_in.iter().zip(mono_out.iter()) {
        assert!((a - b).abs() < 1e-3, "{a} {b}");
    }
}

#[test]
fn handles_short_buffers_without_panic() {
    let mono = [0.5f32; 8];
    let mut raw = vec![0u8; 4];
    encode_from_mono(&mono, &mut raw, 2, 16, SampleType::Int);
    assert_eq!(raw.len(), 4);
    let raw = vec![0u8; 4];
    let mut mono_out = vec![0.0f32; 8];
    decode_to_mono(&raw, &mut mono_out, 2, 16, SampleType::Int);
    assert_eq!(decode_sample(&raw, 1, 0, 2, 16, SampleType::Int), None);
}

// Between the threads.

fn halves() -> (duplex::CaptureHalf, duplex::RenderHalf, Metrics) {
    let cfg = DuplexConfig {
        sample_rate: 48_000,
        hint_block_frames: 144,
        capture_block_frames: 96,
        realtime_priority: true,
    };
    let (c, r) = duplex::new(cfg);
    (c, r, Metrics::new())
}

#[test]
fn what_is_captured_is_rendered_in_order() {
    let (mut c, mut r, mut m) = halves();
    assert!(r.begin(144, 0, &mut m));
    r.retarget(360, &mut m);
    let mut next = 1u32;
    for k in 0..12u64 {
        let block: Vec<u32> = (next..next + 96).collect();
        next += 96;
        c.push(&block, k * 2_000_000, &mut m);
    }
    let look = r.look(&mut m);
    assert!(look.playing && look.just_started);
    // What lay beyond the target when playing began is left out.
    let got = r.fetch(144, 144, &mut m);
    assert_eq!((got.got, got.len), (144, 144));
    let first = r.pull_buf[0];
    assert!(r.pull_buf[..144].iter().enumerate().all(|(i, v)| *v == first + i as u32));
    let got = r.fetch(144, 144, &mut m);
    assert_eq!(got.got, 144);
    assert_eq!(r.pull_buf[0], first + 144);
    assert_eq!(m.xruns, 0);
    assert_eq!(m.input_frames, 96 * 12);
}

#[test]
fn output_starts_on_a_full_target() {
    let (mut c, mut r, mut m) = halves();
    assert!(r.begin(144, 0, &mut m));
    r.retarget(360, &mut m);
    c.push(&patterns(&[0.25; 400]), 0, &mut m);
    assert!(!r.look(&mut m).playing);
    c.push(&patterns(&[0.25; 56]), 1, &mut m);
    let look = r.look(&mut m);
    assert!(look.just_started);
    assert_eq!((look.fill, r.target_fill), (456, 456));
    assert_eq!((m.ring_fill_min, m.ring_fill_max), (456, 456));
    // Three whole blocks and what is left of the target.
    for want in [144usize, 144, 144, 24] {
        assert_eq!(r.fetch(want, want, &mut m).got, want);
    }
    assert_eq!(m.xruns, 0);
}

#[test]
fn nothing_plays_before_the_ring_has_filled() {
    let (mut c, mut r, mut m) = halves();
    r.begin(144, 0, &mut m);
    r.retarget(360, &mut m);
    assert!(!r.look(&mut m).playing);
    c.push(&patterns(&[0.5; 96]), 0, &mut m);
    assert!(!r.look(&mut m).playing);
    assert_eq!(m.xruns, 0);
}

#[test]
fn an_empty_ring_is_an_underrun() {
    let (mut c, mut r, mut m) = halves();
    r.begin(144, 0, &mut m);
    r.retarget(360, &mut m);
    for k in 0..6u64 {
        c.push(&patterns(&[0.5; 96]), k, &mut m);
    }
    assert!(r.look(&mut m).playing);
    for _ in 0..10 {
        let g = r.fetch(144, 144, &mut m);
        assert!(r.pull_buf[g.got..144].iter().all(|v| *v == 0 || g.got == 144));
    }
    assert!(m.xruns > 0);
}

#[test]
fn a_full_ring_is_an_overflow() {
    let (mut c, _r, mut m) = halves();
    let block = patterns(&[0.1; 4096]);
    for k in 0..5u64 {
        c.push(&block, k, &mut m);
    }
    assert_eq!(m.overflows, 5 * 4096 - ring_capacity(144) as u64);
    assert_eq!(ring_capacity(144), 16_384);
    assert_eq!(ring_capacity(4_096), 32_768);
    assert_eq!(scratch_len(144), 8_192);
}

#[test]
fn promotion_is_claimed_once() {
    let (mut c, mut r, mut m) = halves();
    assert!(c.claim_promotion());
    assert!(!c.claim_promotion());
    assert!(r.claim_promotion());
    assert!(!r.claim_promotion());
    m.record_promotion(true);
    m.record_promotion(false);
    assert_eq!((m.rt_promotions, m.rt_failures), (1, 1));
    let mut p = Promotions::new();
    assert!(!was_promoted(&p));
    assert!(!p.note(false));
    assert!(!was_promoted(&p));
    assert!(p.note(true));
    assert!(was_promoted(&p));
    assert!(!p.note(false));
    assert!(was_promoted(&p));
}

#[test]
fn a_rate_of_zero_gets_no_priority() {
    let mut p = Promotions::new();
    assert!(!p.promote_audio_thread(256, 0));
    assert!(!was_promoted(&p));
}

#[test]
fn an_attempt_at_priority_is_made_once_and_counted() {
    let (mut c, mut r, mut m) = halves();
    let mut p = Promotions::new();
    let first = c.promote(&mut p, &mut m);
    let second = r.promote(&mut p, &mut m);
    assert!(first.is_some() && second.is_some());
    assert_eq!(m.rt_promotions + m.rt_failures, 2);
    let granted = [first, second].iter().filter(|g| **g == Some(true)).count() as u32;
    assert_eq!(m.rt_promotions, granted);
    assert_eq!(was_promoted(&p), granted > 0);
    assert_eq!(c.promote(&mut p, &mut m), None);
    assert_eq!(r.promote(&mut p, &mut m), None);
    assert_eq!(m.rt_promotions + m.rt_failures, 2);
}

#[test]
fn blocks_are_stretched_and_cut_by_a_sample() {
    let mut buf = vec![1u32, 2, 3, 4, 5, 6];
    bring_to(&mut buf, 3, 4, 4);
    assert_eq!(buf[0], 1);
    assert_eq!(buf.len(), 6);
}

// Measurements.

#[test]
fn stats_from_micros() {
    let s = LatencyStats::from_micros(&vec![20_000, 21_000, 22_000, 23_000, 40_000]);
    let ms = |us: u64| us as f32 / 1000.0;
    assert_eq!(s.samples, 5);
    assert!((ms(s.min_us) - 20.0).abs() < 0.01);
    assert!((ms(s.median_us) - 22.0).abs() < 0.01);
    assert!((ms(s.max_us) - 40.0).abs() < 0.01);
    assert!((ms(s.spread_us) - 20.0).abs() < 0.01);
    assert_eq!(s.p90_us, 40_000);
}

#[test]
fn empty_stats_are_zero() {
    let s = LatencyStats::from_micros(&vec![]);
    assert_eq!(s.samples, 0);
    assert_eq!(s.median_us, 0);
}

const BURST_HZ: f32 = 2000.0;

/// Writes the burst where one is due.
fn emit(p: &mut ImpulseProbe, out: &mut [f32], now_ns: u64) {
    let Some(n) = p.emit_into(out.len(), now_ns) else {
        return;
    };
    let step = std::f32::consts::TAU * BURST_HZ / p.sample_rate as f32;
    for (i, s) in out.iter_mut().take(n).enumerate() {
        let decay = 1.0 - i as f32 / n as f32;
        *s = (step * i as f32).sin() * 0.8 * decay;
    }
}

/// Looks for the burst in what came in.
fn listen(p: &mut ImpulseProbe, input: &[f32], now_ns: u64) {
    let mean = input.iter().map(|s| s.abs()).sum::<f32>() / input.len() as f32;
    let floor = f(p.noise_floor()) * 0.995 + mean * 0.005;
    let threshold = ImpulseProbe::threshold((floor * 6.0).to_bits());
    if let Some(i) = p.scan_input(&patterns(input), floor.to_bits(), threshold) {
        p.arrived(now_ns, (i as f64 / p.sample_rate as f64 * 1e9) as u64);
    }
}

#[test]
fn emit_writes_burst_only_when_armed() {
    let mut p = ImpulseProbe::new(48_000);
    let mut buf = vec![0.0f32; BURST_LEN * 2];
    emit(&mut p, &mut buf, 1);
    assert!(buf.iter().all(|&s| s == 0.0));
    p.arm();
    emit(&mut p, &mut buf, 1);
    assert!(buf[..BURST_LEN].iter().any(|&s| s.abs() > 0.5));
    assert!(buf[BURST_LEN..].iter().all(|&s| s == 0.0));
}

#[test]
fn burst_frequency_is_acoustically_reproducible() {
    assert!((200.0..8_000.0).contains(&BURST_HZ));
    let mut p = ImpulseProbe::new(48_000);
    let mut buf = vec![0.0f32; BURST_LEN];
    p.arm();
    emit(&mut p, &mut buf, 1);
    let crossings = buf.windows(2).filter(|w| w[0] * w[1] < 0.0).count();
    let secs = BURST_LEN as f32 / 48_000.0;
    let measured = crossings as f32 / 2.0 / secs;
    assert!((measured - BURST_HZ).abs() < BURST_HZ * 0.2, "{measured:.0}");
}

#[test]
fn truncates_safely_for_small_blocks() {
    for block in [32usize, 64, 96, BURST_LEN] {
        let mut p = ImpulseProbe::new(48_000);
        let mut buf = vec![0.0f32; block];
        p.arm();
        emit(&mut p, &mut buf, 1);
        assert!(buf.iter().all(|s| s.is_finite()));
        assert!(buf.iter().any(|&s| s.abs() > 0.3), "{block}");
        let tail = buf[block - 1].abs();
        assert!(tail < 0.1, "{block}: {tail:.3}");
    }
}

#[test]
fn detects_round_trip() {
    let mut p = ImpulseProbe::new(48_000);
    let mut out = vec![0.0f32; 128];
    p.arm();
    emit(&mut p, &mut out, 1_000);
    assert!(!p.is_idle());
    listen(&mut p, &out, 25_001_000);
    assert_eq!(p.completed(), 1);
    assert!(p.is_idle());
    // The burst starts from zero: its second sample is the first that counts.
    assert_eq!(p.last_us(), 25_020);
}

#[test]
fn times_out_when_nothing_returns() {
    let mut p = ImpulseProbe::new(48_000);
    let mut out = vec![0.0f32; 128];
    p.arm();
    emit(&mut p, &mut out, 0);
    let silence = vec![0.0f32; 4800];
    for _ in 0..6 {
        listen(&mut p, &silence, 1);
    }
    assert!(p.is_idle());
    assert_eq!(p.completed(), 0);
}

#[test]
fn onsets_and_peaks_go_by_absolute_value() {
    let x = patterns(&[0.0, -0.3, 0.2, -0.9]);
    assert_eq!(find_onset(&x, 0.25f32.to_bits()), Some(1));
    assert_eq!(find_onset(&x, 1.0f32.to_bits()), None);
    assert_eq!(f(peak(&x)), 0.9);
}

#[test]
fn verdict_boundaries() {
    let of = |ms: f32| verdict(ms.to_bits());
    assert!(of(15.0).contains("自然"));
    assert!(of(23.0).contains("达标"));
    assert!(of(28.0).contains("勉强"));
    assert!(of(40.0).contains("超标"));
    assert!(of(60.0).contains("失效"));
    assert_eq!(of(30.0), of(28.0));
    assert_eq!(of(50.0), of(60.0));
}

// Settings.

#[test]
fn scale_index_roundtrip() {
    for s in [
        ScaleKind::Chromatic,
        ScaleKind::Major,
        ScaleKind::NaturalMinor,
        ScaleKind::HarmonicMinor,
        ScaleKind::MajorPentatonic,
        ScaleKind::MinorPentatonic,
    ] {
        assert_eq!(scale_from_index(scale_to_index(s)), s);
    }
}

#[test]
fn parses_key_names() {
    assert_eq!(parse_key("C"), Some(Key { tonic: 0, scale: ScaleKind::Major }));
    assert_eq!(parse_key("A#"), Some(Key { tonic: 10, scale: ScaleKind::Major }));
    assert_eq!(parse_key("Db"), Some(Key { tonic: 1, scale: ScaleKind::Major }));
    assert_eq!(parse_key("F#m"), Some(Key { tonic: 6, scale: ScaleKind::NaturalMinor }));
    assert_eq!(parse_key("Gchrom"), Some(Key { tonic: 7, scale: ScaleKind::Chromatic }));
    assert_eq!(parse_key("H"), None);
}

#[test]
fn params_roundtrip() {
    let mut p = Params::default();
    p.set_retune_ms(12.5f32.to_bits());
    assert!((f(p.retune_ms()) - 12.5).abs() < 1e-6);
    let k = Key { tonic: 9, scale: ScaleKind::MinorPentatonic };
    p.set_key(k);
    assert_eq!(p.key(), k);
    p.set_monitor_gain(9.0f32.to_bits());
    assert_eq!(f(p.monitor_gain()), 4.0);
    assert_eq!(f(p.effective_gain()), 4.0);
    p.monitor_muted = true;
    assert_eq!(f(p.effective_gain()), 0.0);
    assert_eq!(SEMITONE_NAMES[k.tonic as usize], "A");
}

// Reports.

fn quiet_run() -> MetricsSnapshot {
    let mut m = Metrics::new();
    m.input_frames = 1_000_000;
    m.output_frames = 1_000_000;
    m.rt_promotions = 2;
    m.snapshot()
}

fn ms(x: f32) -> u32 {
    x.to_bits()
}

#[test]
fn a_run_passes_only_where_everything_holds() {
    let m = quiet_run();
    let j = judge(&m, 700_000, ms(0.5), 0, ms(29.9), ms(600.0));
    assert!(j.pass && !j.too_short && !j.measured);
    // An engine through which nothing flows is perfect in everything else.
    let dead = Metrics::new().snapshot();
    let j = judge(&dead, 700_000, ms(0.0), 0, ms(10.0), ms(600.0));
    assert!(j.healthy && j.drift_ok && j.latency_ok);
    assert!(!j.came_in && !j.went_out && !j.pass);
    assert!(!judge(&m, 0, ms(5.1), 0, ms(20.0), ms(30.0)).pass);
    assert!(judge(&m, 0, ms(5.0), 0, ms(20.0), ms(30.0)).too_short);
    let mut measured = quiet_run();
    measured.measured_rt_us = 31_000;
    let j = judge(&measured, 0, ms(0.0), ms(31.0), ms(20.0), ms(600.0));
    assert!(j.measured && !j.latency_ok && !j.pass);
    let mut xrun = quiet_run();
    xrun.xruns = 1;
    assert!(!judge(&xrun, 0, ms(0.0), 0, ms(20.0), ms(600.0)).pass);
}

#[test]
fn underruns_are_put_down_to_a_side() {
    let mut m = quiet_run();
    assert_eq!(blame(&m), None);
    m.xruns = 3;
    assert_eq!(blame(&m), Some(Blame::Elsewhere));
    m.render_stalls = 2;
    assert_eq!(blame(&m), Some(Blame::Render));
    m.capture_stalls = 3;
    assert_eq!(blame(&m), Some(Blame::Capture));
    assert_eq!(priority(&m), Priority::Raised);
    m.rt_failures = 1;
    assert_eq!(priority(&m), Priority::Refused);
    assert_eq!(priority(&Metrics::new().snapshot()), Priority::Missing);
}

#[test]
fn settings_are_refused_outside_their_range() {
    assert!(f0_floor_fits(ms(60.0)) && f0_floor_fits(ms(260.0)));
    assert!(!f0_floor_fits(ms(59.9)) && !f0_floor_fits(ms(f32::NAN)));
    assert!(target_fill_fits(ms(1.0)) && target_fill_fits(ms(6.0)));
    assert!(!target_fill_fits(ms(0.99)) && !target_fill_fits(ms(6.01)));
}

#[test]
fn other_parts_of_the_report() {
    assert_eq!(surroundings(ms(0.03)), Surroundings::Implausible);
    assert_eq!(surroundings(ms(0.01)), Surroundings::Loud);
    assert_eq!(surroundings(ms(0.001)), Surroundings::Quiet);
    assert_eq!(no_echo(ms(0.001), ms(0.02)), NoEcho::NoSignal);
    assert_eq!(no_echo(ms(0.01), ms(0.02)), NoEcho::TooQuiet);
    assert_eq!(no_echo(ms(0.5), ms(0.02)), NoEcho::Suppressed);
    assert!(is_unsteady(5_001) && !is_unsteady(5_000));
    assert_eq!(caution(false, ms(0.9)), Caution::Unusable);
    assert_eq!(caution(true, ms(0.39)), Caution::Unsure);
    assert_eq!(caution(true, ms(0.4)), Caution::Fine);
    assert_eq!(blocks(&info(0, 0, 0.0)), Blocks::Unknown);
    assert_eq!(blocks(&info(256, 256, 0.0)), Blocks::Honored);
    assert_eq!(blocks(&info(480, 480, 0.0)), Blocks::Own { shared: true });
    let mut bar = Bar::new();
    assert_eq!(bar.step(0), Some(0));
    assert_eq!(bar.step(4), None);
    assert_eq!(bar.step(7), Some(5));
    assert_eq!(bar.step(100), Some(100));
}

#[test]
fn rounds_end_with_an_echo_or_without() {
    let mut r = Rounds::new(4);
    assert_eq!(r.poll(4, 0, false), RoundPoll::Waiting);
    assert_eq!(r.poll(4, 0, true), RoundPoll::TimedOut);
    assert_eq!(r.poll(5, 21_000, true), RoundPoll::Got);
    assert_eq!(r.poll(5, 21_000, false), RoundPoll::Waiting);
    assert_eq!(r.samples, vec![21_000]);
}

#[test]
fn a_sweep_finds_the_smallest_size_that_works() {
    let sizes: Vec<u32> = (0..SWEEP_STEPS).map(sweep_size).collect();
    assert_eq!(sizes, vec![64, 96, 128, 192, 256, 384, 512]);
    let mut s = Sweep::new();
    assert_eq!(s.conclude(), Found::Fixed(0));
    s.note(64, true, 480);
    s.note(96, true, 480);
    assert_eq!(s.conclude(), Found::Fixed(480));
    let mut s = Sweep::new();
    s.note(64, false, 64);
    s.note(96, true, 96);
    s.note(128, true, 128);
    assert_eq!(s.conclude(), Found::Size(96));
    let mut s = Sweep::new();
    s.note(64, false, 64);
    s.note(96, false, 96);
    assert_eq!(s.conclude(), Found::Nothing);
}

fn caps(shared_ms: u64, exclusive_ms: u64, client3: Option<u32>) -> Caps {
    Caps {
        sample_rate: 48_000,
        shared_default: shared_ms * 10_000,
        exclusive_min: exclusive_ms * 10_000,
        client3_min: client3,
        exclusive_accepts_mix_format: false,
    }
}

#[test]
fn the_best_route_is_the_shortest() {
    assert_eq!(caps(10, 3, None).best(), (Route::Exclusive, Period::Hns(30_000)));
    assert_eq!(caps(10, 3, Some(96)).best(), (Route::LowLatency, Period::Frames(96)));
    // Of two that are equal the one that takes less of the machine.
    assert_eq!(caps(10, 10, Some(480)).best(), (Route::Shared, Period::Hns(100_000)));
    assert_eq!(caps(10, 2, Some(96)).best(), (Route::LowLatency, Period::Frames(96)));
    assert!(caps(10, 3, None).lacks_low_latency());
    assert!(caps(10, 3, Some(480)).lacks_low_latency());
    assert!(!caps(10, 3, Some(479)).lacks_low_latency());
    assert_eq!(Route::Shared.name(), "共享模式");
}

#[test]
fn latencies_of_routes_add_up() {
    // 2 + 4.5 + 3 ms of devices, and 20 ms of synthesis.
    assert!(is_within(Period::Hns(20_000), 48_000, Period::Hns(30_000), 48_000, 100));
    assert_eq!(outlook(Period::Frames(96), 48_000, Period::Frames(144), 48_000), Outlook::Feasible);
    // 3 + 7.5 + 5 ms: only with the highest floor.
    assert_eq!(
        outlook(Period::Hns(30_000), 48_000, Period::Hns(50_000), 44_100),
        Outlook::Tight
    );
    assert_eq!(
        outlook(Period::Hns(100_000), 48_000, Period::Hns(100_000), 48_000),
        Outlook::Hopeless
    );
    assert_eq!(periods_to_try(30_000, 100_000, 48_000), vec![144, 288, 432, 480]);
    assert_eq!(periods_to_try(0, 0, 48_000), vec![32, 64, 96]);
}

#[test]
fn metrics_keep_extremes_and_start_over() {
    let mut m = Metrics::new();
    m.record_ring_fill(100);
    m.record_ring_fill(40);
    m.record_callback(2_000, 3_000);
    m.record_callback(100, 3_000);
    let s = m.snapshot();
    assert_eq!((s.ring_fill, s.ring_fill_min, s.ring_fill_max), (40, 40, 100));
    assert_eq!(s.ring_fill_span(), 60);
    assert_eq!((s.callback_max_us, s.callback_avg_us), (2_000, 1_050));
    assert_eq!(s.callback_over_half_budget, 1);
    assert!(s.is_healthy());
    m.xruns = 2;
    assert!(!m.snapshot().is_healthy());
    m.reset();
    let s = m.snapshot();
    assert_eq!((s.xruns, s.callback_max_us), (0, 0));
}

// Numbers by their bits.

#[test]
fn patterns_order_as_their_numbers() {
    let xs = [f32::NEG_INFINITY, -2.5, -1e-40, -0.0, 0.0, 1e-40, 1.0, 1.5, 3e38, f32::INFINITY];
    for a in xs {
        for b in xs {
            let (p, q) = (a.to_bits(), b.to_bits());
            assert_eq!(single::lt(p, q), a < b, "{a} {b}");
            assert_eq!(single::le(p, q), a <= b, "{a} {b}");
            assert_eq!(f(single::max(p, q)), a.max(b), "{a} {b}");
            assert_eq!(f(single::min(p, q)), a.min(b), "{a} {b}");
        }
        assert_eq!(f(single::abs(a.to_bits())), a.abs());
        assert_eq!(single::is_finite(a.to_bits()), a.is_finite());
        assert_eq!(single::from_place(single::to_place(a.to_bits())), a.to_bits());
    }
    let nan = f32::NAN.to_bits();
    assert!(!single::lt(nan, 0) && !single::le(0, nan) && single::is_nan(nan));
    assert_eq!(single::max(nan, 5), 5);
    assert_eq!(f(single::clamp(ms(7.0), ms(-1.0), ms(2.0))), 2.0);
    assert!(single::le(ms(30.0), LATENCY_NO_GO_MS));
}

#[test]
fn numbers_are_sorted() {
    assert_eq!(sorted(&vec![5, 1, 4, 1, 9]), vec![1, 1, 4, 5, 9]);
    let v = patterns(&[2.0, -1.0, 0.5, -3.0]);
    let s: Vec<f32> = in_order(&v).iter().map(|b| f(*b)).collect();
    assert_eq!(s, vec![-3.0, -1.0, 0.5, 2.0]);
    assert_eq!(f(nth(&v, 2)), 0.5);
    assert_eq!(next_power_of_two(686 + 686 + 1), 2048);
    assert_eq!(next_power_of_two(2048), 2048);
    assert_eq!(next_power_of_two(0), 1);
}
