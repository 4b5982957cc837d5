//! WAV files, recordings, the lists of takes, and the jobs that work on them.
use wego_voice::clone::{
    build_command, output_path as cloned_path, parse_line, progress_text, Arg, CloneState, Line,
    Reply, StartError, FAILED, FINISHED, NO_PROGRAM,
};
use wego_voice::job::{output_path, Event, JobState, Next, Stage, BUSY, NO_AUDIO, NO_VOICE};
use wego_voice::recorder::{
    after_batch, note_written, take_batch, timestamped_name, Joined, Recorder, RecorderError,
    WavWriter, WriterStep, BATCH,
};
use wego_voice::takes::{
    corrected_name, delete, is_corrected_stem, is_wav, plain, recycle, recycled, rename,
    sanitize_name, scan, within, Entry, Take, TakeError,
};
use wego_voice::wav::{
    header, layout, le_bytes, parse, parse_limited, probe, sample_at, sample_width, u16le, u32le,
    Audio, Encoding, HeadError, Sample, WavError,
};

/// The longest reference recording, in seconds.
const MAX_SECS: f32 = 120.0;

fn number(s: Sample) -> f32 {
    match s {
        Sample::Pcm16(v) => v as f32 / 32768.0,
        Sample::Pcm24(v) => v as f32 / 8_388_608.0,
        Sample::Pcm32(v) => v as f32 / 2_147_483_648.0,
        Sample::Float32(b) => f32::from_bits(b),
        Sample::Float64(b) => f64::from_bits(b) as f32,
    }
}

/// One channel, by averaging.
fn mono(a: &Audio) -> Vec<f32> {
    let ch = a.channels as usize;
    if ch == 1 {
        return a.samples.iter().map(|&s| number(s)).collect();
    }
    let inv = 1.0 / ch as f32;
    (0..a.frames)
        .map(|f| (0..ch).map(|c| number(a.samples[f * ch + c])).sum::<f32>() * inv)
        .collect()
}

fn build(format: u16, bits: u16, ch: u16, rate: u32, data: &[u8], extra: &[u8]) -> Vec<u8> {
    let mut v = Vec::new();
    v.extend_from_slice(b"RIFF");
    v.extend_from_slice(&0u32.to_le_bytes());
    v.extend_from_slice(b"WAVE");

    v.extend_from_slice(b"fmt ");
    v.extend_from_slice(&16u32.to_le_bytes());
    v.extend_from_slice(&format.to_le_bytes());
    v.extend_from_slice(&ch.to_le_bytes());
    v.extend_from_slice(&rate.to_le_bytes());
    v.extend_from_slice(&(rate * ch as u32 * bits as u32 / 8).to_le_bytes());
    v.extend_from_slice(&(ch * bits / 8).to_le_bytes());
    v.extend_from_slice(&bits.to_le_bytes());

    v.extend_from_slice(extra);

    v.extend_from_slice(b"data");
    v.extend_from_slice(&(data.len() as u32).to_le_bytes());
    v.extend_from_slice(data);

    let total = (v.len() - 8) as u32;
    v[4..8].copy_from_slice(&total.to_le_bytes());
    v
}

fn patterns(x: &[f32]) -> Vec<u32> {
    x.iter().map(|s| s.to_bits()).collect()
}

#[test]
fn reads_float32_mono() {
    let src = [0.0f32, 0.5, -0.25, 1.0];
    let mut data = Vec::new();
    for s in src {
        data.extend_from_slice(&s.to_le_bytes());
    }
    let a = parse(&build(3, 32, 1, 48_000, &data, &[])).unwrap();
    assert_eq!(a.sample_rate, 48_000);
    assert_eq!(a.channels, 1);
    assert_eq!(mono(&a), src);
}

#[test]
fn reads_pcm16_and_scales() {
    let data: Vec<u8> = [0i16, 16384, -16384, 32767]
        .iter()
        .flat_map(|v| v.to_le_bytes())
        .collect();
    let a = parse(&build(1, 16, 1, 44_100, &data, &[])).unwrap();
    assert_eq!(a.sample_rate, 44_100);
    assert_eq!(a.samples, vec![Sample::Pcm16(0), Sample::Pcm16(16384), Sample::Pcm16(-16384), Sample::Pcm16(32767)]);
    let m = mono(&a);
    assert!((m[1] - 0.5).abs() < 1e-6);
    assert!((m[2] + 0.5).abs() < 1e-6);
    assert!(m.iter().all(|s| s.abs() <= 1.0));
}

#[test]
fn reads_pcm24_with_correct_sign() {
    let vals: [i32; 3] = [-8_388_608, 0, 8_388_607];
    let mut data = Vec::new();
    for v in vals {
        let b = v.to_le_bytes();
        data.extend_from_slice(&b[0..3]);
    }
    let a = parse(&build(1, 24, 1, 48_000, &data, &[])).unwrap();
    let m = mono(&a);
    assert!((m[0] + 1.0).abs() < 1e-5, "{}", m[0]);
    assert!(m[1].abs() < 1e-6);
    assert!((m[2] - 1.0).abs() < 1e-5);
}

#[test]
fn reads_pcm32_and_float64() {
    let data: Vec<u8> = [i32::MIN, 0, 1 << 30].iter().flat_map(|v| v.to_le_bytes()).collect();
    let a = parse(&build(1, 32, 1, 48_000, &data, &[])).unwrap();
    assert_eq!(mono(&a), vec![-1.0, 0.0, 0.5]);
    let data: Vec<u8> = [0.25f64, -0.5].iter().flat_map(|v| v.to_le_bytes()).collect();
    let a = parse(&build(3, 64, 1, 48_000, &data, &[])).unwrap();
    assert_eq!(mono(&a), vec![0.25, -0.5]);
}

#[test]
fn downmixes_stereo_by_averaging() {
    let data: Vec<u8> = [1.0f32, 0.0, 1.0, 1.0]
        .iter()
        .flat_map(|v| v.to_le_bytes())
        .collect();
    let a = parse(&build(3, 32, 2, 48_000, &data, &[])).unwrap();
    assert_eq!(a.channels, 2);
    let m = mono(&a);
    assert_eq!(m.len(), 2);
    assert!((m[0] - 0.5).abs() < 1e-6);
    assert!((m[1] - 1.0).abs() < 1e-6);
}

#[test]
fn skips_unknown_chunks_between_fmt_and_data() {
    let mut extra = Vec::new();
    extra.extend_from_slice(b"LIST");
    extra.extend_from_slice(&10u32.to_le_bytes());
    extra.extend_from_slice(b"INFOhello");
    extra.push(0);

    let data: Vec<u8> = [0.25f32, -0.75]
        .iter()
        .flat_map(|v| v.to_le_bytes())
        .collect();
    let a = parse(&build(3, 32, 1, 48_000, &data, &extra)).unwrap();
    let m = mono(&a);
    assert_eq!(m.len(), 2);
    assert!((m[0] - 0.25).abs() < 1e-6);
}

#[test]
fn an_odd_chunk_is_padded() {
    let mut extra = Vec::new();
    extra.extend_from_slice(b"LIST");
    extra.extend_from_slice(&5u32.to_le_bytes());
    extra.extend_from_slice(b"INFOx");
    extra.push(0);
    let data: Vec<u8> = 0.25f32.to_le_bytes().to_vec();
    let a = parse(&build(3, 32, 1, 48_000, &data, &extra)).unwrap();
    assert_eq!(mono(&a), vec![0.25]);
}

#[test]
fn tolerates_truncated_data_chunk() {
    let data: Vec<u8> = [0.5f32, 0.5].iter().flat_map(|v| v.to_le_bytes()).collect();
    let mut w = build(3, 32, 1, 48_000, &data, &[]);
    let n = w.len();
    w[n - 8 - 4..n - 8].copy_from_slice(&9999u32.to_le_bytes());
    let a = parse(&w).unwrap();
    assert_eq!(a.samples.len(), 2);
}

#[test]
fn rejects_non_wav() {
    assert!(parse(b"not a wav file at all").is_err());
    assert!(parse(&[]).is_err());
}

#[test]
fn rejects_unsupported_bit_depth() {
    let e = match parse(&build(1, 8, 1, 48_000, &[0, 0, 0, 0], &[])) {
        Err(e) => e,
        Ok(_) => panic!("read"),
    };
    assert_eq!(e, WavError::Unsupported { format: 1, bits: 8 });
    assert!(e.message().contains("不支持"));
    assert_eq!(e.message(), "不支持的格式：format=1 bits=8（支持 PCM 16/24/32 与 float 32/64）");
}

fn refusal(b: &[u8]) -> WavError {
    match parse(b) {
        Err(e) => e,
        Ok(_) => panic!("read"),
    }
}

#[test]
fn every_fault_of_a_file_has_its_error() {
    assert_eq!(refusal(b"RIFF"), WavError::NotWav);
    assert_eq!(refusal(&build(3, 32, 0, 48_000, &[0; 4], &[])), WavError::NoChannels);
    assert_eq!(refusal(&build(3, 32, 1, 0, &[0; 4], &[])), WavError::NoRate);
    let whole = build(3, 32, 1, 48_000, &[0; 4], &[]);
    assert_eq!(refusal(&whole[..36]), WavError::NoData);
    assert_eq!(refusal(&whole[..12]), WavError::NoFormat);
    let mut short = whole.clone();
    short[16..20].copy_from_slice(&8u32.to_le_bytes());
    assert_eq!(refusal(&short), WavError::ShortFormat);
    assert_eq!(WavError::NotWav.message(), "不是 WAV 文件（RIFF/WAVE 头不匹配）");
    assert_eq!(WavError::NoRate.message(), "采样率为 0");
}

#[test]
fn an_extensible_format_is_looked_up() {
    // 40 bytes of format, the real kind in the first two bytes of the subformat.
    let mut v = Vec::new();
    v.extend_from_slice(b"RIFF\0\0\0\0WAVEfmt ");
    v.extend_from_slice(&40u32.to_le_bytes());
    v.extend_from_slice(&0xFFFEu16.to_le_bytes());
    v.extend_from_slice(&1u16.to_le_bytes());
    v.extend_from_slice(&48_000u32.to_le_bytes());
    v.extend_from_slice(&192_000u32.to_le_bytes());
    v.extend_from_slice(&4u16.to_le_bytes());
    v.extend_from_slice(&32u16.to_le_bytes());
    v.extend_from_slice(&[0; 8]);
    v.extend_from_slice(&3u16.to_le_bytes());
    v.extend_from_slice(&[0; 14]);
    v.extend_from_slice(b"data");
    v.extend_from_slice(&4u32.to_le_bytes());
    v.extend_from_slice(&0.5f32.to_le_bytes());
    let a = parse(&v).unwrap();
    assert_eq!(mono(&a), vec![0.5]);
    let l = layout(&v).unwrap();
    assert_eq!(l.encoding, Encoding::Float32);
    assert_eq!(l.frames, 1);
    assert_eq!(l.offset, v.len() - 4);
}

#[test]
fn caps_overlong_input_when_asked() {
    let rate = 8_000u32;
    let frames = (MAX_SECS * rate as f32) as usize + 5_000;
    let data: Vec<u8> = (0..frames).flat_map(|_| 0.1f32.to_le_bytes()).collect();
    let cap = (MAX_SECS * rate as f32) as usize;
    let a = parse_limited(&build(3, 32, 1, rate, &data, &[]), Some(cap)).unwrap();
    assert_eq!(a.samples.len(), (MAX_SECS * rate as f32) as usize);
    assert!((a.frames as f32 / a.sample_rate as f32 - MAX_SECS).abs() < 0.01);
}

#[test]
fn does_not_cap_by_default() {
    let rate = 8_000u32;
    let frames = (MAX_SECS * rate as f32) as usize + 5_000;
    let data: Vec<u8> = (0..frames).flat_map(|_| 0.1f32.to_le_bytes()).collect();
    let a = parse(&build(3, 32, 1, rate, &data, &[])).unwrap();
    assert_eq!(a.samples.len(), frames);
}

#[test]
fn write_read_roundtrip_is_bit_exact() {
    let src: Vec<f32> = (0..1000).map(|i| (i as f32 / 500.0 - 1.0) * 0.8).collect();
    let bytes = wego_voice::wav::write(&patterns(&src), 48_000);
    let back = parse(&bytes).unwrap();
    assert_eq!(back.sample_rate, 48_000);
    assert_eq!(back.channels, 1);
    assert_eq!(mono(&back), src);
}

#[test]
fn little_endian_readers_and_writers_agree() {
    assert_eq!(u16le(&[0x34, 0x12], 0), 0x1234);
    assert_eq!(u32le(&[0, 0x78, 0x56, 0x34, 0x12], 1), 0x1234_5678);
    assert_eq!(le_bytes(0x1234_5678), vec![0x78, 0x56, 0x34, 0x12]);
    assert_eq!(sample_width(Encoding::Pcm24), 3);
    assert_eq!(sample_at(&[0xFF, 0xFF, 0xFF], 0, Encoding::Pcm24), Sample::Pcm24(-1));
    let h = header(48_000, 36, 0);
    assert_eq!(h.len(), 44);
    assert_eq!(&h[0..4], b"RIFF");
    assert_eq!(&h[36..40], b"data");
    assert_eq!(u32le(&h, 28), 192_000);
}

#[test]
fn the_head_of_a_file_gives_its_length() {
    let data: Vec<u8> = (0..8000).flat_map(|_| 0.1f32.to_le_bytes()).collect();
    let w = build(3, 32, 1, 8_000, &data, &[]);
    let h = probe(&w[..4096], w.len() as u64).unwrap();
    assert_eq!(h.rate, 8_000);
    assert_eq!(h.frame_bytes, 4);
    let secs = h.data_bytes as f32 / h.frame_bytes.max(1) as f32 / h.rate as f32;
    assert!((secs - 1.0).abs() < 0.01);
    assert!(matches!(probe(b"nothing", 7), Err(HeadError::NotWav)));
    assert!(matches!(probe(&w[..12], 12), Err(HeadError::NoFormat)));
    assert_eq!(HeadError::NotWav.message(), "不是 WAV 文件");
    assert_eq!(HeadError::NoFormat.message(), "找不到 fmt chunk");
}

// Recording.

/// What the file holds after a recording.
fn recorded(rec: &mut Recorder, sink_input: &[&[f32]]) -> Vec<u8> {
    let (mut sink, mut own) = Recorder::new(48_000);
    std::mem::swap(rec, &mut own);
    let mut consumer = rec.start().unwrap();
    rec.started("x.wav".to_string());
    let (mut writer, mut bytes) = WavWriter::create(48_000);
    for block in sink_input {
        for chunk in block.chunks(144) {
            sink.push(&mut rec.state, &patterns(chunk));
        }
        let mut batch = vec![0u32; BATCH];
        loop {
            let moved = take_batch(&mut consumer, &mut batch);
            bytes.extend(writer.write(&batch[..moved]));
            note_written(&mut rec.state, moved);
            if after_batch(rec.state.active, moved) != WriterStep::Again {
                break;
            }
        }
    }
    assert!(rec.stop());
    let (riff, data) = writer.finalize();
    for p in [riff, data] {
        let at = p.at as usize;
        bytes[at..at + p.bytes.len()].copy_from_slice(&p.bytes);
    }
    let out = rec.stopped(Joined::Finished { consumer, ok: true }).unwrap();
    assert_eq!(out.as_deref(), Some("x.wav"));
    bytes
}

#[test]
fn records_dry_signal_bit_exact() {
    let input: Vec<f32> = (0..4800)
        .map(|i| (i as f32 / 4800.0 * 2.0 - 1.0) * 0.75)
        .collect();
    let (_, mut rec) = Recorder::new(48_000);
    let bytes = recorded(&mut rec, &[&input]);
    assert_eq!(&bytes[0..4], b"RIFF");
    assert_eq!(&bytes[8..12], b"WAVE");
    let data_len = u32::from_le_bytes(bytes[40..44].try_into().unwrap()) as usize;
    assert_eq!(data_len, input.len() * 4);
    assert_eq!(bytes.len(), 44 + data_len);
    let decoded: Vec<f32> = bytes[44..]
        .chunks_exact(4)
        .map(|b| f32::from_le_bytes(b.try_into().unwrap()))
        .collect();
    assert_eq!(decoded, input);
    assert_eq!(rec.state.frames_written, 4800);
}

#[test]
fn push_is_a_noop_when_not_recording() {
    let (mut sink, mut rec) = Recorder::new(48_000);
    sink.push(&mut rec.state, &patterns(&[0.5; 512]));
    assert_eq!(rec.state().frames_written, 0);
    assert_eq!(rec.state().dropped, 0);
}

#[test]
fn a_second_take_does_not_inherit_the_first() {
    let (mut sink, mut rec) = Recorder::new(48_000);
    let consumer = rec.start().unwrap();
    rec.started("1.wav".to_string());
    sink.push(&mut rec.state, &patterns(&[0.9; 1000]));
    rec.stop();
    // The writer ends without having taken anything.
    rec.stopped(Joined::Finished { consumer, ok: true }).unwrap();
    sink.push(&mut rec.state, &patterns(&[0.9; 1000]));

    let mut consumer = rec.start().unwrap();
    rec.started("2.wav".to_string());
    sink.push(&mut rec.state, &patterns(&[-0.25; 480]));
    let mut batch = vec![0u32; BATCH];
    let moved = take_batch(&mut consumer, &mut batch);
    assert_eq!(moved, 480);
    assert!(batch[..moved].iter().all(|b| f32::from_bits(*b) == -0.25));
    assert_eq!(take_batch(&mut consumer, &mut batch), 0);
}

#[test]
fn empty_take_is_still_a_valid_wav() {
    let (_, mut rec) = Recorder::new(48_000);
    let bytes = recorded(&mut rec, &[]);
    assert_eq!(bytes.len(), 44);
    assert_eq!(u32::from_le_bytes(bytes[40..44].try_into().unwrap()), 0);
    assert_eq!(parse(&bytes).unwrap().frames, 0);
}

#[test]
fn rejects_double_start() {
    let (_, mut rec) = Recorder::new(48_000);
    let first = rec.start();
    assert!(first.is_ok());
    rec.started("double.wav".to_string());
    assert!(matches!(rec.start(), Err(RecorderError::AlreadyRecording)));
}

#[test]
fn every_end_of_a_writer_is_told() {
    let (_, mut rec) = Recorder::new(48_000);
    let c = rec.start().unwrap();
    rec.started("a.wav".to_string());
    assert!(rec.is_recording());
    assert_eq!(rec.current_path().map(|s| s.as_str()), Some("a.wav"));
    rec.stop();
    assert!(matches!(
        rec.stopped(Joined::Finished { consumer: c, ok: false }),
        Err(RecorderError::WriteFailed)
    ));
    let _c = rec.start().unwrap();
    rec.started("b.wav".to_string());
    rec.stop();
    assert!(matches!(rec.stopped(Joined::Died), Err(RecorderError::WriterDied)));
    // The reading end went down with the writer.
    assert!(matches!(rec.start(), Err(RecorderError::NoConsumer)));
    assert!(!rec.stop());
}

#[test]
fn the_count_is_the_number_of_samples_in_the_file() {
    let (_, mut rec) = Recorder::new(48_000);
    let first = [0.25f32; 5000];
    let second = [-0.5f32; 321];
    let bytes = recorded(&mut rec, &[&first, &second]);
    assert_eq!(rec.state.frames_written, 5321);
    assert_eq!(bytes.len(), 44 + 4 * 5321);
    assert!(!rec.is_recording());
}

#[test]
fn a_second_stop_has_no_file_to_give() {
    let (_, mut rec) = Recorder::new(48_000);
    let c = rec.start().unwrap();
    rec.started("a.wav".to_string());
    assert!(rec.stop());
    let first = rec.stopped(Joined::Finished { consumer: c, ok: true });
    assert!(matches!(first, Ok(Some(p)) if p == "a.wav"));
    assert!(!rec.stop());
    assert!(matches!(rec.stopped(Joined::NoWriter), Ok(None)));
    assert!(rec.start().is_ok());
}

#[test]
fn a_full_ring_drops_and_counts() {
    let (mut sink, mut rec) = Recorder::new(48_000);
    let _consumer = rec.start().unwrap();
    rec.started("full.wav".to_string());
    let block = patterns(&[0.1; 1000]);
    for _ in 0..200 {
        sink.push(&mut rec.state, &block);
    }
    assert_eq!(rec.state.dropped, 200_000 - 96_000);
}

#[test]
fn recordings_are_named_by_the_second() {
    assert_eq!(timestamped_name(1_700_000_000), "wego-1700000000.wav");
    assert_eq!(timestamped_name(0), "wego-0.wav");
}

// Takes.

fn entry(name: &str, seconds: f32, modified: u64) -> Entry {
    Entry {
        name: name.to_string(),
        is_file: true,
        seconds: seconds.to_bits(),
        bytes: (seconds * 32_000.0) as u64 + 44,
        modified,
    }
}

fn find<'a>(t: &'a [Take], name: &str) -> &'a Take {
    t.iter().find(|x| x.name == name).unwrap()
}

#[test]
fn pairs_corrected_output_with_its_source() {
    let d = vec![
        entry("wego-1.wav", 1.0, 1),
        entry("wego-1-corrected.wav", 1.0, 2),
        entry("wego-2.wav", 2.0, 3),
    ];
    let t = scan(&d);
    assert_eq!(t.len(), 2);
    let one = find(&t, "wego-1.wav");
    assert!(one.corrected.is_some());
    assert_eq!(one.corrected, Some(1));
    assert_eq!(one.file, 0);
    let two = find(&t, "wego-2.wav");
    assert!(two.corrected.is_none());
    assert!((f32::from_bits(two.seconds) - 2.0).abs() < 0.05);
}

#[test]
fn orphan_corrected_is_still_listed() {
    let d = vec![entry("wego-9-corrected.wav", 1.0, 1)];
    let t = scan(&d);
    assert_eq!(t.len(), 1);
    assert_eq!(t[0].name, "wego-9-corrected.wav");
}

#[test]
fn scan_of_missing_dir_is_empty_not_an_error() {
    assert!(scan(&vec![]).is_empty());
}

#[test]
fn the_listing_is_newest_first_and_then_by_name() {
    let mut dir = entry("a.wav", 1.0, 9);
    dir.is_file = false;
    let d = vec![
        entry("b.wav", 1.0, 5),
        entry("a.wav", 1.0, 5),
        entry("c.WAV", 1.0, 7),
        entry("notes.txt", 1.0, 99),
        dir,
    ];
    let names: Vec<String> = scan(&d).iter().map(|t| t.name.clone()).collect();
    assert_eq!(names, vec!["c.WAV", "a.wav", "b.wav"]);
}

fn parts(p: &str) -> Vec<Vec<u8>> {
    p.split('/').map(|s| s.as_bytes().to_vec()).collect()
}

#[test]
fn rejects_paths_outside_the_recordings_dir() {
    let d = parts("C:/music/wego");
    let outside = parts("C:/music/wego-outside.wav");
    let e = within(Some(&d), Some(&outside), "wego-outside.wav").unwrap_err();
    assert_eq!(e, TakeError::Outside);
    assert!(e.message("x").contains("不在录音目录"));
    let inside = parts("C:/music/wego/ok.wav");
    assert!(within(Some(&d), Some(&inside), "ok.wav").is_ok());
    assert_eq!(within(None, Some(&inside), "ok.wav"), Err(TakeError::NoDirectory));
    assert_eq!(within(Some(&d), None, "ok.wav"), Err(TakeError::NoFile));
    assert_eq!(
        within(Some(&d), Some(&parts("C:/music/wego/ok.txt")), "ok.txt"),
        Err(TakeError::NotWav)
    );
}

/// Takes the steps back out of a path, as the system does when it resolves one.
fn resolved(path: &str) -> Vec<Vec<u8>> {
    let mut out: Vec<Vec<u8>> = Vec::new();
    for p in parts(path) {
        if p == b".." {
            out.pop();
        } else {
            out.push(p);
        }
    }
    out
}

#[test]
fn rejects_dot_dot_escape() {
    let d = resolved("C:/tmp/escape");
    let sneaky = resolved("C:/tmp/escape/../wego-escape.wav");
    assert_eq!(
        within(Some(&d), Some(&sneaky), "wego-escape.wav"),
        Err(TakeError::Outside)
    );
    let inside = resolved("C:/tmp/escape/../escape/wego-escape.wav");
    assert_eq!(within(Some(&d), Some(&inside), "wego-escape.wav"), Ok(()));
}

#[test]
fn returned_paths_carry_no_verbatim_prefix() {
    assert_eq!(plain(r"\\?\C:\a\v.wav").as_deref(), Some(r"C:\a\v.wav"));
    assert_eq!(plain(r"C:\a\v.wav"), None);
    // A share keeps its prefix: without it there would be no path left.
    assert_eq!(plain(r"\\?\UNC\server\share\v.wav"), None);
}

#[test]
fn sanitize_rejects_what_windows_rejects() {
    assert_eq!(sanitize_name("第一条").unwrap(), "第一条.wav");
    assert_eq!(sanitize_name(" 带空格 ").unwrap(), "带空格.wav");
    assert_eq!(sanitize_name("已经带了.wav").unwrap(), "已经带了.wav");
    for bad in ["", "   ", "a/b", "a\\b", "a:b", "a*b", "a?b", "..", "x."] {
        assert!(sanitize_name(bad).is_err(), "{bad:?}");
    }
}

#[test]
fn every_fault_of_a_name_has_its_error() {
    assert_eq!(sanitize_name(".wav"), Err(TakeError::EmptyName));
    assert_eq!(sanitize_name("a|b"), Err(TakeError::BadCharacter('|')));
    assert_eq!(sanitize_name("a\u{1}b"), Err(TakeError::BadCharacter('\u{1}')));
    assert_eq!(sanitize_name("x."), Err(TakeError::ReservedName));
    // Forty characters of three bytes each are the limit.
    let long = "长".repeat(41);
    assert_eq!(sanitize_name(&long), Err(TakeError::NameTooLong));
    assert!(sanitize_name(&"长".repeat(40)).is_ok());
    assert_eq!(TakeError::BadCharacter('\\').message(""), r"名字里不能有 '\\'");
    assert_eq!(TakeError::BadCharacter('\u{1f}').message(""), r"名字里不能有 '\u{1f}'");
    assert_eq!(TakeError::BadCharacter('\t').message(""), r"名字里不能有 '\t'");
    assert_eq!(TakeError::BadCharacter('*').message(""), "名字里不能有 '*'");
    for c in ['\0', '\u{7}', '\n', '\r', '\u{1b}', '/', '"', '\\'] {
        assert_eq!(TakeError::BadCharacter(c).message(""), format!("名字里不能有 {c:?}"));
    }
}

#[test]
fn rename_takes_the_corrected_file_along() {
    let r = rename("wego-7.wav", "副歌第三条", false, true).unwrap();
    assert_eq!(r.name, "副歌第三条.wav");
    assert_eq!(r.moves.len(), 2);
    // The corrected version goes first.
    assert_eq!(r.moves[0].from, "wego-7-corrected.wav");
    assert_eq!(r.moves[0].to, "副歌第三条-corrected.wav");
    assert_eq!(r.moves[1].from, "wego-7.wav");
    assert_eq!(r.moves[1].to, "副歌第三条.wav");
    let t = scan(&vec![entry(&r.moves[0].to, 0.5, 1), entry(&r.moves[1].to, 0.5, 1)]);
    assert_eq!(t.len(), 1);
    assert!(t[0].corrected.is_some());
}

#[test]
fn rename_refuses_to_overwrite() {
    let e = match rename("a.wav", "b", true, false) {
        Err(e) => e,
        Ok(_) => panic!("renamed"),
    };
    assert_eq!(e, TakeError::NameTaken);
    assert!(e.message("").contains("已经有一条"));
    // Renaming to the name it has changes nothing.
    let r = rename("a.wav", "a", true, true).unwrap();
    assert!(r.moves.is_empty());
}

#[test]
fn delete_removes_both_files() {
    let v = delete("wego-8.wav", true, true);
    assert_eq!(v, vec!["wego-8.wav", "wego-8-corrected.wav"]);
    assert_eq!(delete("wego-8.wav", true, false), vec!["wego-8.wav"]);
}

#[test]
fn delete_can_keep_the_corrected_version() {
    assert_eq!(delete("wego-5.wav", false, true), vec!["wego-5.wav"]);
}

#[test]
fn the_recycler_gets_a_list_with_two_ends() {
    let v: Vec<Vec<u16>> = vec!["ab".encode_utf16().collect(), "c".encode_utf16().collect()];
    assert_eq!(recycle(&v), vec![97, 98, 0, 99, 0, 0]);
    assert_eq!(recycle(&vec![]), vec![0]);
    assert_eq!(recycled(0, false), Ok(()));
    assert_eq!(recycled(124, false), Err(TakeError::RecyclerFailed(124)));
    assert_eq!(recycled(0, true), Err(TakeError::Aborted));
    assert!(TakeError::RecyclerFailed(-7).message("").contains("返回 -7）"));
}

#[test]
fn suffix_matches_the_job_module() {
    let out = output_path(r"C:\x\wego-1.wav");
    let name = out.rsplit('\\').next().unwrap();
    let stem = name.strip_suffix(".wav").unwrap();
    assert!(is_corrected_stem(stem), "{stem}");
    assert_eq!(corrected_name("wego-1.wav"), name);
    assert!(is_wav("x.WaV"));
    assert!(!is_wav("x.wave"));
}

// The offline job.

#[test]
fn output_path_sits_next_to_the_input() {
    assert_eq!(
        output_path(r"C:\Music\wego-voice\wego-123.wav"),
        r"C:\Music\wego-voice\wego-123-corrected.wav"
    );
}

#[test]
fn output_goes_into_a_share_and_beside_literal_paths() {
    for (input, want) in [
        (r"\\srv\share\take.wav", r"\\srv\share\take-corrected.wav"),
        (r"//srv/share/a/take.wav", r"//srv/share/a/take-corrected.wav"),
        // The root of a share has no file name.
        (r"\\srv\share", r"\\srv\share\-corrected.wav"),
        (r"\\srv\share\", r"\\srv\share\-corrected.wav"),
        (r"\\.\COM1", r"\\.\COM1\-corrected.wav"),
        // Without a share there is only a file name.
        (r"\\srv", r"\\srv-corrected.wav"),
        (r"\\?\C:\Music\take.wav", r"\\?\C:\Music\take-corrected.wav"),
        (r"\\?\C:", r"\\?\C:\-corrected.wav"),
        (r"\\?\UNC\srv\share\a.b.wav", r"\\?\UNC\srv\share\a.b-corrected.wav"),
        (r"\\?\UNC\srv\share", r"\\?\UNC\srv\share\-corrected.wav"),
        // A slash does not separate in a literal path, and a dot is a component.
        (r"\\?\C:\x.y/take", r"\\?\C:\x-corrected.wav"),
        (r"\\?\C:\x\.", r"\\?\C:\x\.\-corrected.wav"),
        (r"C:\x.y/take", r"C:\x.y/take-corrected.wav"),
        (r"C:\x\.", r"C:\x-corrected.wav"),
        (r"C:", r"C:-corrected.wav"),
        (r"C:\", r"C:\-corrected.wav"),
        (r"C:take.wav", r"C:take-corrected.wav"),
    ] {
        assert_eq!(output_path(input), want, "{input}");
    }
}

#[test]
fn runs_to_completion_and_writes_output() {
    let mut s = JobState::default();
    s.start_recorrect(r"C:\Music\a.wav".to_string()).unwrap();
    assert!(s.is_running());
    assert_eq!(s.run(Event::Read(48_000)), Next::Track);
    assert!(s.set(Stage::Tracking, 0.25f32.to_bits()));
    assert_eq!(s.stage(), Stage::Tracking);
    assert_eq!(f32::from_bits(s.progress()), 0.25);
    let followed = Event::Followed { voiced: 300, octave_fixes: 2, gap_fills: 5 };
    assert_eq!(s.run(followed), Next::Correct);
    assert_eq!((s.octave_fixes(), s.gap_fills()), (2, 5));
    let out = r"C:\Music\a-corrected.wav";
    assert_eq!(s.run(Event::Corrected), Next::Write(out.to_string()));
    assert_eq!(s.stage(), Stage::Writing);
    assert_eq!(s.run(Event::Written), Next::End);
    assert_eq!(s.stage(), Stage::Done);
    assert_eq!(s.output().as_deref(), Some(out));
    assert!(!s.is_running());
    assert!(s.error().is_none());
}

#[test]
fn refuses_a_second_job() {
    let mut s = JobState::default();
    s.start_recorrect("a.wav".to_string()).unwrap();
    assert_eq!(s.start_recorrect("b.wav".to_string()), Err(BUSY));
    assert_eq!(s.run(Event::Corrected), Next::Write("a-corrected.wav".to_string()));
}

#[test]
fn cancellation_stops_the_job() {
    let mut s = JobState::default();
    s.start_recorrect("a.wav".to_string()).unwrap();
    s.run(Event::Read(48_000));
    s.cancel();
    assert!(!s.set(Stage::Tracking, 0.5f32.to_bits()));
    assert_eq!(s.run(Event::Stopped), Next::End);
    assert_eq!(s.stage(), Stage::Cancelled);
    assert!(s.output().is_none());
    assert!(s.error().is_none());
    // A new job may start, and is not cancelled.
    s.start_recorrect("a.wav".to_string()).unwrap();
    assert!(s.set(Stage::Reading, 0));
}

#[test]
fn reports_a_useful_error_for_silence() {
    let mut s = JobState::default();
    s.start_recorrect("a.wav".to_string()).unwrap();
    s.run(Event::Read(48_000));
    assert_eq!(s.run(Event::Followed { voiced: 0, octave_fixes: 0, gap_fills: 0 }), Next::End);
    assert_eq!(s.stage(), Stage::Failed);
    assert_eq!(s.error().as_deref(), Some(NO_VOICE));
    assert!(s.error().unwrap().contains("人声"));
}

#[test]
fn missing_file_fails_cleanly() {
    let mut s = JobState::default();
    s.start_recorrect("a.wav".to_string()).unwrap();
    assert_eq!(s.run(Event::ReadFailed("读取失败".to_string())), Next::End);
    assert_eq!(s.stage(), Stage::Failed);
    assert_eq!(s.error().as_deref(), Some("读取失败"));
    s.start_recorrect("a.wav".to_string()).unwrap();
    assert!(s.error().is_none());
    assert_eq!(s.run(Event::Read(0)), Next::End);
    assert_eq!(s.error().as_deref(), Some(NO_AUDIO));
    s.start_recorrect("a.wav".to_string()).unwrap();
    assert_eq!(s.run(Event::WriteFailed("满".to_string())), Next::End);
    assert!(s.output().is_none());
}

#[test]
fn stages_keep_their_numbers() {
    for s in [
        Stage::Idle,
        Stage::Reading,
        Stage::Tracking,
        Stage::Correcting,
        Stage::Writing,
        Stage::Done,
        Stage::Failed,
        Stage::Cancelled,
    ] {
        assert_eq!(Stage::from_code(s.code()), s);
    }
    assert_eq!(Stage::from_code(99), Stage::Idle);
}

// The conversion job.

/// A line of the companion, its number read as the program reads it.
fn parsed(line: &str) -> Option<Line> {
    let number = progress_text(line).and_then(|t| t.parse::<f32>().ok()).map(f32::to_bits);
    parse_line(line, number)
}

#[test]
fn parses_the_protocol() {
    assert!(matches!(parsed("STAGE 提取音高轨"), Some(Line::Stage(s)) if s == "提取音高轨"));
    assert!(matches!(parsed("PROGRESS 0.3200"), Some(Line::Progress(b)) if f32::from_bits(b) == 0.32));
    assert!(matches!(
        parsed(r"OK D:\Music\a-cloned.wav"),
        Some(Line::Done(p)) if p == r"D:\Music\a-cloned.wav"
    ));
    assert!(matches!(parsed("ERR 模型文件不存在"), Some(Line::Failed(e)) if e == "模型文件不存在"));
}

#[test]
fn unknown_lines_are_ignored_not_errors() {
    for s in [
        "",
        "   ",
        "[tract] loading graph...",
        "warning: something",
        "PROGRESSbutnotreally",
        "OKAY",
    ] {
        assert!(parsed(s).is_none(), "{s:?}");
    }
}

#[test]
fn malformed_progress_is_dropped() {
    assert!(parsed("PROGRESS abc").is_none());
    assert!(parsed("PROGRESS ").is_none());
}

#[test]
fn output_sits_next_to_the_input_with_its_own_suffix() {
    assert_eq!(
        cloned_path(r"C:\Music\wego-voice\wego-1.wav"),
        r"C:\Music\wego-voice\wego-1-cloned.wav"
    );
    assert_ne!(cloned_path(r"C:\a\x.wav"), r"C:\a\x-corrected.wav");
}

#[test]
fn a_missing_companion_fails_immediately() {
    let mut st = CloneState::default();
    assert_eq!(st.start(false), Err(StartError::NoProgram));
    assert!(NO_PROGRAM.contains("找不到推理程序"));
    assert!(!st.is_running());
    assert_eq!(st.start(true), Ok(()));
    assert_eq!(st.start(true), Err(StartError::Busy));
}

#[test]
fn the_command_carries_every_argument() {
    let args: Vec<String> = build_command(3)
        .iter()
        .map(|a| match a {
            Arg::Text(s) => s.clone(),
            Arg::Models => r"C:\models".to_string(),
            Arg::Input => r"C:\a.wav".to_string(),
            Arg::Output => r"C:\b.wav".to_string(),
        })
        .collect();
    for want in ["--models", "--input", "--output", "--speaker"] {
        assert!(args.iter().any(|a| a == want), "{want}: {args:?}");
    }
    assert!(args.iter().any(|a| a == "3"), "{args:?}");
    assert!(args.iter().any(|a| a.contains("models")), "{args:?}");
    let at = args.iter().position(|a| a == "--input").unwrap();
    assert_eq!(args[at + 1], r"C:\a.wav");
}

#[test]
fn a_conversion_goes_through_its_lines() {
    let mut st = CloneState::default();
    st.start(true).unwrap();
    let mut reply = Reply { done: None, failure: None };
    for line in ["STAGE 载入", "PROGRESS 0.5", "noise", "OK out.wav"] {
        if let Some(l) = parsed(line) {
            st.on_line(&mut reply, l);
        }
    }
    assert_eq!(st.stage(), "载入");
    assert_eq!(f32::from_bits(st.progress()), 0.5);
    let r = st.conclude(reply, Some(0));
    st.finish(r);
    assert_eq!(st.stage(), FINISHED);
    assert_eq!(st.output().as_deref(), Some("out.wav"));
    assert!(!st.is_running());
}

#[test]
fn a_conversion_without_an_answer_fails() {
    let mut st = CloneState::default();
    st.start(true).unwrap();
    let r = st.conclude(Reply { done: None, failure: None }, Some(-3));
    let e = r.clone().unwrap_err();
    assert!(e.contains("退出码 -3"), "{e}");
    st.finish(r);
    assert_eq!(st.stage(), FAILED);
    assert_eq!(st.error(), Some(e));
    let e = st.conclude(Reply { done: None, failure: None }, None).unwrap_err();
    assert!(e.contains("退出码未知"), "{e}");
    let e = st
        .conclude(Reply { done: Some("x".to_string()), failure: Some("坏".to_string()) }, Some(1))
        .unwrap_err();
    assert_eq!(e, "坏");
}
