//! WAV files: reading, and writing of mono single-precision ones.
//!
//! Reading walks the chunks rather than trusting fixed offsets, and takes a
//! data chunk that was cut short as far as it goes. Samples come out as they
//! are stored; scaling and mixing down is left to the caller.
use crate::single::Bits;
use crate::text;
use vstd::prelude::*;

verus! {

/// "RIFF", read as a little-endian number.
pub const RIFF: u32 = 0x4646_4952;

/// "WAVE".
pub const WAVE: u32 = 0x4556_4157;

/// "fmt ".
pub const FMT: u32 = 0x2074_6D66;

/// "data".
pub const DATA: u32 = 0x6174_6164;

/// Length of the header that this library writes.
pub const HEADER_LEN: u32 = 44;

/// Format codes: integer samples, floating-point samples, and the code that
/// says that the real one follows in an extension.
pub const FORMAT_PCM: u16 = 1;

pub const FORMAT_FLOAT: u16 = 3;

pub const FORMAT_EXTENSIBLE: u16 = 0xFFFE;

/// What is wrong with a file.
#[derive(Clone, Copy, PartialEq, Eq, Structural, Debug)]
pub enum WavError {
    /// It does not begin as a WAV file does.
    NotWav,
    /// Its format chunk is too short.
    ShortFormat,
    /// It has no format chunk.
    NoFormat,
    /// It has no data chunk.
    NoData,
    /// It says that it has no channels.
    NoChannels,
    /// It says that its sample rate is zero.
    NoRate,
    /// Its samples are of a kind that is not read.
    Unsupported { format: u16, bits: u16 },
}

impl WavError {
    /// What is told of the error.
    pub open spec fn told(&self) -> Seq<char> {
        match *self {
            WavError::NotWav => "不是 WAV 文件（RIFF/WAVE 头不匹配）"@,
            WavError::ShortFormat => "fmt chunk 太短"@,
            WavError::NoFormat => "缺少 fmt chunk"@,
            WavError::NoData => "缺少 data chunk"@,
            WavError::NoChannels => "声道数为 0"@,
            WavError::NoRate => "采样率为 0"@,
            WavError::Unsupported { format, bits } => "不支持的格式：format="@ + text::decimal(
                format as int,
            ) + " bits="@ + text::decimal(bits as int)
                + "（支持 PCM 16/24/32 与 float 32/64）"@,
        }
    }

    /// What is told of the error.
    pub fn message(&self) -> (s: String)
        ensures
            s@ == self.told(),
    {
        match *self {
            WavError::NotWav => "不是 WAV 文件（RIFF/WAVE 头不匹配）".to_owned(),
            WavError::ShortFormat => "fmt chunk 太短".to_owned(),
            WavError::NoFormat => "缺少 fmt chunk".to_owned(),
            WavError::NoData => "缺少 data chunk".to_owned(),
            WavError::NoChannels => "声道数为 0".to_owned(),
            WavError::NoRate => "采样率为 0".to_owned(),
            WavError::Unsupported { format, bits } => {
                let mut s: String = "不支持的格式：format=".to_owned();
                text::push_decimal(&mut s, format as u64);
                text::push_text(&mut s, " bits=");
                text::push_decimal(&mut s, bits as u64);
                text::push_text(&mut s, "（支持 PCM 16/24/32 与 float 32/64）");
                s
            },
        }
    }
}

/// How a sample is stored.
#[derive(Clone, Copy, PartialEq, Eq, Structural, Debug)]
pub enum Encoding {
    Pcm16,
    Pcm24,
    Pcm32,
    Float32,
    Float64,
}

/// A sample as it is stored; floating-point ones by their bit patterns.
#[derive(Clone, Copy, PartialEq, Eq, Structural, Debug)]
pub enum Sample {
    Pcm16(i16),
    Pcm24(i32),
    Pcm32(i32),
    Float32(Bits),
    Float64(u64),
}

/// The contents of a format chunk.
#[derive(Clone, Copy, PartialEq, Eq, Structural, Debug)]
pub struct Format {
    pub format: u16,
    pub channels: u16,
    pub rate: u32,
    pub bits: u16,
}

/// Where the samples of a file lie, and what they are.
#[derive(Clone, Copy, PartialEq, Eq, Structural, Debug)]
pub struct Layout {
    pub encoding: Encoding,
    pub channels: u16,
    pub rate: u32,
    /// Where the data begins.
    pub offset: usize,
    /// Whole frames in the data.
    pub frames: usize,
}

/// What was read: the samples frame by frame, the channels of a frame in order.
pub struct Audio {
    pub samples: Vec<Sample>,
    pub frames: usize,
    pub sample_rate: u32,
    pub channels: u16,
}

/// The 16-bit number at `i`, low byte first.
#[verifier::opaque]
pub open spec fn u16_at(b: Seq<u8>, i: int) -> u16 {
    (b[i] + 0x100 * b[i + 1]) as u16
}

/// The 32-bit number at `i`, low byte first.
#[verifier::opaque]
pub open spec fn u32_at(b: Seq<u8>, i: int) -> u32 {
    (b[i] + 0x100 * b[i + 1] + 0x1_0000 * b[i + 2] + 0x100_0000 * b[i + 3]) as u32
}

/// The 16-bit number at `at`, low byte first.
pub fn u16le(b: &[u8], at: usize) -> (v: u16)
    requires
        at + 2 <= b@.len(),
    ensures
        v == u16_at(b@, at as int),
{
    proof {
        reveal(u16_at);
    }
    b[at] as u16 + 0x100 * (b[at + 1] as u16)
}

/// The 32-bit number at `at`, low byte first.
pub fn u32le(b: &[u8], at: usize) -> (v: u32)
    requires
        at + 4 <= b@.len(),
    ensures
        v == u32_at(b@, at as int),
{
    proof {
        reveal(u32_at);
    }
    b[at] as u32 + 0x100 * (b[at + 1] as u32) + 0x1_0000 * (b[at + 2] as u32) + 0x100_0000 * (b[at
        + 3] as u32)
}

/// Does a file begin as a WAV file does?
pub open spec fn begins_as_wav(b: Seq<u8>) -> bool {
    b.len() >= 12 && u32_at(b, 0) == RIFF && u32_at(b, 8) == WAVE
}

/// The format chunk whose body begins at `body`.
pub open spec fn format_at(b: Seq<u8>, body: int, size: int) -> Format {
    Format {
        format: if u16_at(b, body) == FORMAT_EXTENSIBLE && size >= 40 {
            u16_at(b, body + 24)
        } else {
            u16_at(b, body)
        },
        channels: u16_at(b, body + 2),
        rate: u32_at(b, body + 4),
        bits: u16_at(b, body + 14),
    }
}

/// What the walk over the chunks finds: the last format chunk, and place and
/// length of the last data chunk. `Err` where a format chunk is too short.
pub open spec fn walk(
    b: Seq<u8>,
    pos: int,
    fmt: Option<Format>,
    data: Option<(int, int)>,
) -> Result<(Option<Format>, Option<(int, int)>), WavError>
    decreases b.len() + 1 - pos,
    when 0 <= pos
{
    if pos + 8 > b.len() {
        Ok((fmt, data))
    } else {
        let id = u32_at(b, pos);
        let size = u32_at(b, pos + 4) as int;
        let body = pos + 8;
        if body + size > b.len() {
            // The file ends before the chunk does: what is there of the data
            // counts.
            Ok((fmt, if id == DATA { Some((body, b.len() - body)) } else { data }))
        } else if id == FMT && size < 16 {
            Err(WavError::ShortFormat)
        } else {
            walk(
                b,
                body + size + size % 2,
                if id == FMT {
                    Some(format_at(b, body, size))
                } else {
                    fmt
                },
                if id == DATA {
                    Some((body, size))
                } else {
                    data
                },
            )
        }
    }
}

/// How samples of a format and width are stored, where they can be read.
pub open spec fn encoding_of(format: u16, bits: u16) -> Option<Encoding> {
    if format == FORMAT_PCM && bits == 16 {
        Some(Encoding::Pcm16)
    } else if format == FORMAT_PCM && bits == 24 {
        Some(Encoding::Pcm24)
    } else if format == FORMAT_PCM && bits == 32 {
        Some(Encoding::Pcm32)
    } else if format == FORMAT_FLOAT && bits == 32 {
        Some(Encoding::Float32)
    } else if format == FORMAT_FLOAT && bits == 64 {
        Some(Encoding::Float64)
    } else {
        None
    }
}

/// Bytes of one sample.
pub open spec fn width_of(e: Encoding) -> int {
    match e {
        Encoding::Pcm16 => 2,
        Encoding::Pcm24 => 3,
        Encoding::Pcm32 => 4,
        Encoding::Float32 => 4,
        Encoding::Float64 => 8,
    }
}

/// The layout that a file has, or what is wrong with it. Of several things
/// wrong the first in this order is told.
pub open spec fn layout_of(b: Seq<u8>) -> Result<Layout, WavError> {
    if !begins_as_wav(b) {
        Err(WavError::NotWav)
    } else {
        match walk(b, 12, None, None) {
            Err(e) => Err(e),
            Ok((None, _)) => Err(WavError::NoFormat),
            Ok((Some(_), None)) => Err(WavError::NoData),
            Ok((Some(f), Some((offset, len)))) => if f.channels == 0 {
                Err(WavError::NoChannels)
            } else if f.rate == 0 {
                Err(WavError::NoRate)
            } else {
                match encoding_of(f.format, f.bits) {
                    None => Err(WavError::Unsupported { format: f.format, bits: f.bits }),
                    Some(encoding) => Ok(
                        Layout {
                            encoding,
                            channels: f.channels,
                            rate: f.rate,
                            offset: offset as usize,
                            frames: (len / (width_of(encoding) * f.channels)) as usize,
                        },
                    ),
                }
            },
        }
    }
}

fn encoding(format: u16, bits: u16) -> (e: Option<Encoding>)
    ensures
        e == encoding_of(format, bits),
{
    if format == FORMAT_PCM {
        if bits == 16 {
            Some(Encoding::Pcm16)
        } else if bits == 24 {
            Some(Encoding::Pcm24)
        } else if bits == 32 {
            Some(Encoding::Pcm32)
        } else {
            None
        }
    } else if format == FORMAT_FLOAT {
        if bits == 32 {
            Some(Encoding::Float32)
        } else if bits == 64 {
            Some(Encoding::Float64)
        } else {
            None
        }
    } else {
        None
    }
}

/// Bytes of one sample.
pub fn sample_width(e: Encoding) -> (w: usize)
    ensures
        w == width_of(e),
{
    match e {
        Encoding::Pcm16 => 2,
        Encoding::Pcm24 => 3,
        Encoding::Pcm32 => 4,
        Encoding::Float32 => 4,
        Encoding::Float64 => 8,
    }
}

/// The data of a layout lies inside the file.
pub open spec fn lies_within(b: Seq<u8>, l: Layout) -> bool {
    &&& l.channels > 0
    &&& l.rate > 0
    &&& l.offset + l.frames * (width_of(l.encoding) * l.channels) <= b.len()
}

/// Finds the layout of a file.
pub fn layout(b: &[u8]) -> (r: Result<Layout, WavError>)
    ensures
        r == layout_of(b@),
        r matches Ok(l) ==> lies_within(b@, l),
{
    if b.len() < 12 || u32le(b, 0) != RIFF || u32le(b, 8) != WAVE {
        return Err(WavError::NotWav);
    }
    let mut pos: usize = 12;
    let mut fmt: Option<Format> = None;
    let mut data: Option<(usize, usize)> = None;
    let mut ended: bool = false;
    let ghost goal = walk(b@, 12, None, None);
    while !ended && b.len() - pos >= 8
        invariant
            b@.len() >= 12,
            12 <= pos <= b@.len(),
            begins_as_wav(b@),
            goal == walk(b@, 12, None, None),
            data matches Some((o, n)) ==> o + n <= b@.len(),
            ended ==> goal == Ok::<(Option<Format>, Option<(int, int)>), WavError>(
                (fmt, widened(data)),
            ),
            !ended ==> goal == walk(b@, pos as int, fmt, widened(data)),
        decreases (if ended { 0int } else { 1 + b@.len() - pos }),
    {
        let id: u32 = u32le(b, pos);
        let size: usize = u32le(b, pos + 4) as usize;
        let body: usize = pos + 8;
        if size > b.len() - body {
            if id == DATA {
                data = Some((body, b.len() - body));
            }
            ended = true;
        } else {
            if id == FMT {
                if size < 16 {
                    return Err(WavError::ShortFormat);
                }
                let plain: u16 = u16le(b, body);
                let format: u16 = if plain == FORMAT_EXTENSIBLE && size >= 40 {
                    u16le(b, body + 24)
                } else {
                    plain
                };
                fmt = Some(
                    Format {
                        format,
                        channels: u16le(b, body + 2),
                        rate: u32le(b, body + 4),
                        bits: u16le(b, body + 14),
                    },
                );
            } else if id == DATA {
                data = Some((body, size));
            }
            pos = body + size;
            if size % 2 == 1 && pos < b.len() {
                pos = pos + 1;
            }
            proof {
                let next = body + size + size % 2;
                assert(goal == walk(b@, next, fmt, widened(data)));
                if next != pos {
                    // The padding byte after the last chunk is missing.
                    assert(walk(b@, next, fmt, widened(data)) == walk(
                        b@,
                        pos as int,
                        fmt,
                        widened(data),
                    ));
                }
            }
        }
    }
    let f: Format = match fmt {
        Some(f) => f,
        None => {
            return Err(WavError::NoFormat);
        },
    };
    let (offset, len): (usize, usize) = match data {
        Some(d) => d,
        None => {
            return Err(WavError::NoData);
        },
    };
    if f.channels == 0 {
        return Err(WavError::NoChannels);
    }
    if f.rate == 0 {
        return Err(WavError::NoRate);
    }
    match encoding(f.format, f.bits) {
        None => Err(WavError::Unsupported { format: f.format, bits: f.bits }),
        Some(encoding) => {
            let w: usize = sample_width(encoding);
            let c: usize = f.channels as usize;
            assert(1 <= w * c <= 8 * 0xFFFF) by (nonlinear_arith)
                requires
                    2 <= w <= 8,
                    1 <= c <= 0xFFFF,
            ;
            let frames: usize = len / (w * c);
            proof {
                let fb = (w * c) as int;
                vstd::arithmetic::div_mod::lemma_fundamental_div_mod(len as int, fb);
                assert(frames * fb == fb * frames) by (nonlinear_arith);
            }
            Ok(Layout { encoding, channels: f.channels, rate: f.rate, offset, frames })
        },
    }
}

/// A place and length as mathematical integers.
pub open spec fn widened(d: Option<(usize, usize)>) -> Option<(int, int)> {
    match d {
        Some((o, n)) => Some((o as int, n as int)),
        None => None,
    }
}

/// An unsigned number of `2^bits = wrap` values read as a signed one.
pub open spec fn as_signed(u: int, wrap: int) -> int {
    if 2 * u < wrap {
        u
    } else {
        u - wrap
    }
}

/// The sample stored at `at`.
pub open spec fn stored(b: Seq<u8>, at: int, e: Encoding) -> Sample {
    match e {
        Encoding::Pcm16 => Sample::Pcm16(as_signed(u16_at(b, at) as int, 0x1_0000) as i16),
        Encoding::Pcm24 => Sample::Pcm24(
            as_signed(b[at] + 0x100 * b[at + 1] + 0x1_0000 * b[at + 2], 0x100_0000) as i32,
        ),
        Encoding::Pcm32 => Sample::Pcm32(
            as_signed(u32_at(b, at) as int, 0x1_0000_0000) as i32,
        ),
        Encoding::Float32 => Sample::Float32(u32_at(b, at)),
        Encoding::Float64 => Sample::Float64(
            (u32_at(b, at) + 0x1_0000_0000 * u32_at(b, at + 4)) as u64,
        ),
    }
}

/// The first `frames` frames of a file, sample by sample.
pub open spec fn stored_samples(b: Seq<u8>, l: Layout, frames: int) -> Seq<Sample> {
    Seq::new(
        (frames * l.channels) as nat,
        |k: int| stored(b, l.offset + k * width_of(l.encoding), l.encoding),
    )
}

/// Reads the sample stored at `at`.
pub fn sample_at(b: &[u8], at: usize, e: Encoding) -> (s: Sample)
    requires
        at + width_of(e) <= b@.len(),
    ensures
        s == stored(b@, at as int, e),
{
    match e {
        Encoding::Pcm16 => {
            let u: u16 = u16le(b, at);
            let v: i16 = if u < 0x8000 {
                u as i16
            } else {
                (u as i32 - 0x1_0000) as i16
            };
            Sample::Pcm16(v)
        },
        Encoding::Pcm24 => {
            let u: i32 = b[at] as i32 + 0x100 * (b[at + 1] as i32) + 0x1_0000 * (b[at + 2] as i32);
            let v: i32 = if u < 0x80_0000 {
                u
            } else {
                u - 0x100_0000
            };
            Sample::Pcm24(v)
        },
        Encoding::Pcm32 => {
            let u: u32 = u32le(b, at);
            let v: i32 = if u < 0x8000_0000 {
                u as i32
            } else {
                (u as i64 - 0x1_0000_0000) as i32
            };
            Sample::Pcm32(v)
        },
        Encoding::Float32 => Sample::Float32(u32le(b, at)),
        Encoding::Float64 => {
            assert(b.len() == b@.len());
            let low: u64 = u32le(b, at) as u64;
            let high: u64 = u32le(b, at + 4) as u64;
            Sample::Float64(low + 0x1_0000_0000 * high)
        },
    }
}

/// The number of frames to read, where at most `cap` are wanted.
pub open spec fn capped(frames: int, cap: Option<usize>) -> int {
    match cap {
        Some(c) => if c < frames {
            c as int
        } else {
            frames
        },
        None => frames,
    }
}

/// Reads a file from its bytes, all of it.
pub fn parse(b: &[u8]) -> (r: Result<Audio, WavError>)
    ensures
        r is Err <==> layout_of(b@) is Err,
        r matches Err(e) ==> layout_of(b@) == Err::<Layout, WavError>(e),
        r matches Ok(a) ==> {
            let l = layout_of(b@)->Ok_0;
            &&& a.channels == l.channels
            &&& a.sample_rate == l.rate
            &&& a.frames == l.frames
            &&& a.samples@ == stored_samples(b@, l, l.frames as int)
        },
{
    parse_limited(b, None)
}

/// Reads a file from its bytes, at most `cap` frames of it.
pub fn parse_limited(b: &[u8], cap: Option<usize>) -> (r: Result<Audio, WavError>)
    ensures
        r is Err <==> layout_of(b@) is Err,
        r matches Err(e) ==> layout_of(b@) == Err::<Layout, WavError>(e),
        r matches Ok(a) ==> {
            let l = layout_of(b@)->Ok_0;
            &&& a.channels == l.channels
            &&& a.sample_rate == l.rate
            &&& a.frames == capped(l.frames as int, cap)
            &&& a.samples@ == stored_samples(b@, l, capped(l.frames as int, cap))
        },
{
    let l: Layout = match layout(b) {
        Ok(l) => l,
        Err(e) => {
            return Err(e);
        },
    };
    let frames: usize = match cap {
        Some(c) => if c < l.frames {
            c
        } else {
            l.frames
        },
        None => l.frames,
    };
    let w: usize = sample_width(l.encoding);
    let c: usize = l.channels as usize;
    assert(b.len() == b@.len());
    assert(frames * c * w <= l.frames * (w * c) && frames * c <= frames * c * w) by (nonlinear_arith)
        requires
            frames <= l.frames,
            w >= 1,
            c >= 0,
    ;
    let count: usize = frames * c;
    let mut samples: Vec<Sample> = Vec::with_capacity(count);
    let mut k: usize = 0;
    while k < count
        invariant
            k <= count,
            samples@.len() == k,
            w == width_of(l.encoding),
            l.offset + count * w <= b@.len(),
            b@.len() <= usize::MAX,
            forall|j: int|
                0 <= j < k ==> #[trigger] samples@[j] == stored(
                    b@,
                    l.offset + j * width_of(l.encoding),
                    l.encoding,
                ),
        decreases count - k,
    {
        assert(k * w + w <= count * w && 0 <= k * w) by (nonlinear_arith)
            requires
                k + 1 <= count,
                w >= 0,
        ;
        let s: Sample = sample_at(b, l.offset + k * w, l.encoding);
        samples.push(s);
        k = k + 1;
    }
    assert(samples@ =~= stored_samples(b@, l, frames as int));
    Ok(Audio { samples, frames, sample_rate: l.rate, channels: l.channels })
}

/// What the head of a file shows.
#[derive(Clone, Copy, PartialEq, Eq, Structural, Debug)]
pub struct HeadInfo {
    pub rate: u32,
    /// Bytes per frame, at least one.
    pub frame_bytes: u64,
    /// Bytes of samples, worked out from the length of the file: that holds
    /// good even where the length in the data chunk was never filled in.
    pub data_bytes: u64,
}

/// What the format chunk at `body` shows of a file of `total` bytes. Zeros
/// count as the least that makes sense.
pub open spec fn head_info(b: Seq<u8>, body: int, size: int, total: int) -> HeadInfo {
    let ch = if u16_at(b, body + 2) == 0 {
        1
    } else {
        u16_at(b, body + 2) as int
    };
    let bits = if u16_at(b, body + 14) < 8 {
        8
    } else {
        u16_at(b, body + 14) as int
    };
    HeadInfo {
        rate: if u32_at(b, body + 4) == 0 {
            1
        } else {
            u32_at(b, body + 4)
        },
        frame_bytes: (ch * bits / 8) as u64,
        data_bytes: if total < body + size + 8 {
            0
        } else {
            (total - (body + size + 8)) as u64
        },
    }
}

/// The walk over the head of a file to its first complete format chunk.
pub open spec fn find_head(b: Seq<u8>, pos: int, total: int) -> Option<HeadInfo>
    decreases b.len() + 1 - pos,
    when 0 <= pos
{
    if pos + 8 > b.len() {
        None
    } else {
        let id = u32_at(b, pos);
        let size = u32_at(b, pos + 4) as int;
        let body = pos + 8;
        if id == FMT && size >= 16 && body + 16 <= b.len() {
            Some(head_info(b, body, size, total))
        } else if body + size > b.len() {
            None
        } else {
            find_head(b, body + size + size % 2, total)
        }
    }
}

/// What is wrong with the head of a file.
#[derive(Clone, Copy, PartialEq, Eq, Structural, Debug)]
pub enum HeadError {
    /// It does not begin as a WAV file does.
    NotWav,
    /// It holds no whole format chunk.
    NoFormat,
}

impl HeadError {
    /// What is told of the error.
    pub open spec fn told(&self) -> Seq<char> {
        match *self {
            HeadError::NotWav => "不是 WAV 文件"@,
            HeadError::NoFormat => "找不到 fmt chunk"@,
        }
    }

    /// What is told of the error.
    pub fn message(&self) -> (s: String)
        ensures
            s@ == self.told(),
    {
        match *self {
            HeadError::NotWav => "不是 WAV 文件".to_owned(),
            HeadError::NoFormat => "找不到 fmt chunk".to_owned(),
        }
    }
}

/// Reads the head of a file of `total` bytes, for a listing.
pub fn probe(head: &[u8], total: u64) -> (r: Result<HeadInfo, HeadError>)
    ensures
        r == (if !begins_as_wav(head@) {
            Err::<HeadInfo, HeadError>(HeadError::NotWav)
        } else {
            match find_head(head@, 12, total as int) {
                Some(i) => Ok(i),
                None => Err(HeadError::NoFormat),
            }
        }),
        r matches Ok(i) ==> i.rate > 0 && i.frame_bytes > 0,
{
    if head.len() < 12 || u32le(head, 0) != RIFF || u32le(head, 8) != WAVE {
        return Err(HeadError::NotWav);
    }
    let mut pos: usize = 12;
    let ghost goal = find_head(head@, 12, total as int);
    while head.len() - pos >= 8
        invariant
            12 <= pos <= head@.len(),
            begins_as_wav(head@),
            goal == find_head(head@, 12, total as int),
            goal == find_head(head@, pos as int, total as int),
        decreases head@.len() - pos,
    {
        let id: u32 = u32le(head, pos);
        let size: usize = u32le(head, pos + 4) as usize;
        let body: usize = pos + 8;
        if id == FMT && size >= 16 && head.len() - body >= 16 {
            let ch: u64 = u16le(head, body + 2) as u64;
            let rate: u32 = u32le(head, body + 4);
            let bits: u64 = u16le(head, body + 14) as u64;
            let ch1: u64 = if ch == 0 {
                1
            } else {
                ch
            };
            let bits1: u64 = if bits < 8 {
                8
            } else {
                bits
            };
            assert(8 <= ch1 * bits1 <= 0xFFFF * 0xFFFF) by (nonlinear_arith)
                requires
                    1 <= ch1 <= 0xFFFF,
                    8 <= bits1 <= 0xFFFF,
            ;
            let used: u128 = body as u128 + size as u128 + 8;
            let data: u64 = if (total as u128) < used {
                0
            } else {
                (total as u128 - used) as u64
            };
            return Ok(
                HeadInfo {
                    rate: if rate == 0 {
                        1
                    } else {
                        rate
                    },
                    frame_bytes: ch1 * bits1 / 8,
                    data_bytes: data,
                },
            );
        }
        if size > head.len() - body {
            return Err(HeadError::NoFormat);
        }
        pos = body + size;
        if size % 2 == 1 && pos < head.len() {
            pos = pos + 1;
        }
        proof {
            let next = body + size + size % 2;
            assert(goal == find_head(head@, next, total as int));
            if next != pos {
                assert(find_head(head@, next, total as int) == find_head(
                    head@,
                    pos as int,
                    total as int,
                ));
            }
        }
    }
    Err(HeadError::NoFormat)
}

/// A 16-bit number, low byte first.
pub open spec fn le16(x: u16) -> Seq<u8> {
    seq![(x % 0x100) as u8, (x / 0x100) as u8]
}

/// A 32-bit number, low byte first.
pub open spec fn le32(x: u32) -> Seq<u8> {
    seq![
        (x % 0x100) as u8,
        (x / 0x100 % 0x100) as u8,
        (x / 0x1_0000 % 0x100) as u8,
        (x / 0x100_0000) as u8,
    ]
}

fn push_u16(v: &mut Vec<u8>, x: u16)
    ensures
        final(v)@ == old(v)@ + le16(x),
{
    v.push((x % 0x100) as u8);
    v.push((x / 0x100) as u8);
    assert(v@ =~= old(v)@ + le16(x));
}

fn push_u32(v: &mut Vec<u8>, x: u32)
    ensures
        final(v)@ == old(v)@ + le32(x),
{
    v.push((x % 0x100) as u8);
    v.push((x / 0x100 % 0x100) as u8);
    v.push((x / 0x1_0000 % 0x100) as u8);
    v.push((x / 0x100_0000) as u8);
    assert(v@ =~= old(v)@ + le32(x));
}

/// A 32-bit number as its four bytes.
pub fn le_bytes(x: u32) -> (v: Vec<u8>)
    ensures
        v@ == le32(x),
{
    let mut v: Vec<u8> = Vec::new();
    push_u32(&mut v, x);
    assert(v@ =~= le32(x));
    v
}

/// The header of a mono single-precision file, with the two length fields as
/// given: that of the file less eight bytes, and that of the data.
#[verifier::opaque]
pub open spec fn header_bytes(rate: u32, riff_len: u32, data_len: u32) -> Seq<u8> {
    le32(RIFF) + le32(riff_len) + le32(WAVE) + (le32(FMT) + le32(16) + le16(FORMAT_FLOAT) + le16(1)
        + le32(rate) + le32((rate * 4) as u32) + le16(4) + le16(32)) + (le32(DATA) + le32(data_len))
}

/// Samples, each as its four bytes.
pub open spec fn sample_bytes(samples: Seq<Bits>) -> Seq<u8>
    decreases samples.len(),
{
    if samples.len() == 0 {
        Seq::empty()
    } else {
        sample_bytes(samples.drop_last()) + le32(samples.last())
    }
}

/// A whole file of these samples.
pub open spec fn file_bytes(samples: Seq<Bits>, rate: u32) -> Seq<u8> {
    header_bytes(rate, (36 + 4 * samples.len()) as u32, (4 * samples.len()) as u32) + sample_bytes(
        samples,
    )
}

/// Writes the header.
pub fn header(rate: u32, riff_len: u32, data_len: u32) -> (v: Vec<u8>)
    requires
        rate * 4 <= u32::MAX,
    ensures
        v@ == header_bytes(rate, riff_len, data_len),
        v@.len() == HEADER_LEN,
{
    proof {
        reveal(header_bytes);
    }
    let mut v: Vec<u8> = Vec::with_capacity(44);
    push_u32(&mut v, RIFF);
    push_u32(&mut v, riff_len);
    push_u32(&mut v, WAVE);
    push_u32(&mut v, FMT);
    push_u32(&mut v, 16);
    push_u16(&mut v, FORMAT_FLOAT);
    push_u16(&mut v, 1);
    push_u32(&mut v, rate);
    push_u32(&mut v, rate * 4);
    push_u16(&mut v, 4);
    push_u16(&mut v, 32);
    push_u32(&mut v, DATA);
    push_u32(&mut v, data_len);
    assert(v@ =~= header_bytes(rate, riff_len, data_len));
    v
}

/// Appends samples, each as its four bytes.
pub fn push_samples(v: &mut Vec<u8>, samples: &[Bits])
    ensures
        final(v)@ == old(v)@ + sample_bytes(samples@),
{
    let mut i: usize = 0;
    assert(samples@.take(0) =~= Seq::<Bits>::empty());
    assert(old(v)@ + Seq::<u8>::empty() =~= old(v)@);
    while i < samples.len()
        invariant
            i <= samples@.len(),
            v@ == old(v)@ + sample_bytes(samples@.take(i as int)),
        decreases samples@.len() - i,
    {
        push_u32(v, samples[i]);
        i = i + 1;
        assert(samples@.take(i as int).drop_last() =~= samples@.take(i - 1));
        assert(v@ =~= old(v)@ + sample_bytes(samples@.take(i as int)));
    }
    assert(samples@.take(i as int) =~= samples@);
}

/// The bytes of a whole mono single-precision file.
pub fn write(samples: &[Bits], rate: u32) -> (v: Vec<u8>)
    requires
        36 + 4 * samples@.len() <= u32::MAX,
        rate * 4 <= u32::MAX,
    ensures
        v@ == file_bytes(samples@, rate),
{
    let data_len: u32 = samples.len() as u32 * 4;
    let mut v: Vec<u8> = header(rate, 36 + data_len, data_len);
    push_samples(&mut v, samples);
    v
}

/// Four bytes read as the number that they were made of.
pub proof fn lemma_le32_reads_back(b: Seq<u8>, i: int, x: u32)
    requires
        0 <= i,
        i + 4 <= b.len(),
        b.subrange(i, i + 4) == le32(x),
    ensures
        u32_at(b, i) == x,
{
    let four = b.subrange(i, i + 4);
    assert(b[i] == four[0] && b[i + 1] == four[1] && b[i + 2] == four[2] && b[i + 3] == four[3]);
    lemma_four_bytes(x);
    let (p, q, r, s) = (b[i], b[i + 1], b[i + 2], b[i + 3]);
    assert(p + 0x100 * q + 0x1_0000 * r + 0x100_0000 * s == x);
    assert(u32_at(b, i) == x) by {
        reveal(u32_at);
    }
}

/// A number is the sum of its four bytes.
proof fn lemma_four_bytes(x: u32)
    ensures
        x / 0x100_0000 < 0x100,
        x % 0x100 + 0x100 * (x / 0x100 % 0x100) + 0x1_0000 * (x / 0x1_0000 % 0x100) + 0x100_0000 * (x
            / 0x100_0000) == x,
{
    let a = x / 0x100;
    let b = a / 0x100;
    assert(x / 0x1_0000 == b);
    assert(x / 0x100_0000 == b / 0x100);
}

/// Two bytes read as the number that they were made of.
pub proof fn lemma_le16_reads_back(b: Seq<u8>, i: int, x: u16)
    requires
        0 <= i,
        i + 2 <= b.len(),
        b.subrange(i, i + 2) == le16(x),
    ensures
        u16_at(b, i) == x,
{
    reveal(u16_at);
    let two = b.subrange(i, i + 2);
    assert(b[i] == two[0] && b[i + 1] == two[1]);
}

proof fn lemma_sample_bytes(samples: Seq<Bits>, k: int)
    requires
        0 <= k < samples.len(),
    ensures
        sample_bytes(samples).len() == 4 * samples.len(),
        sample_bytes(samples).subrange(4 * k, 4 * k + 4) == le32(samples[k]),
    decreases samples.len(),
{
    lemma_sample_bytes_len(samples);
    lemma_sample_bytes_len(samples.drop_last());
    let all = sample_bytes(samples);
    if k == samples.len() - 1 {
        assert(all.subrange(4 * k, 4 * k + 4) =~= le32(samples.last()));
    } else {
        lemma_sample_bytes(samples.drop_last(), k);
        assert(all.subrange(4 * k, 4 * k + 4) =~= sample_bytes(samples.drop_last()).subrange(
            4 * k,
            4 * k + 4,
        ));
    }
}

proof fn lemma_sample_bytes_len(samples: Seq<Bits>)
    ensures
        sample_bytes(samples).len() == 4 * samples.len(),
    decreases samples.len(),
{
    if samples.len() > 0 {
        lemma_sample_bytes_len(samples.drop_last());
    }
}

/// What the fields of a header read as, whatever follows it.
proof fn lemma_header_fields(b: Seq<u8>, rate: u32, riff_len: u32, data_len: u32, rest: Seq<u8>)
    requires
        b == header_bytes(rate, riff_len, data_len) + rest,
    ensures
        header_bytes(rate, riff_len, data_len).len() == 44,
        b.len() == 44 + rest.len(),
        u32_at(b, 0) == RIFF,
        u32_at(b, 4) == riff_len,
        u32_at(b, 8) == WAVE,
        u32_at(b, 12) == FMT,
        u32_at(b, 16) == 16,
        u16_at(b, 20) == FORMAT_FLOAT,
        u16_at(b, 22) == 1,
        u32_at(b, 24) == rate,
        u16_at(b, 34) == 32,
        u32_at(b, 36) == DATA,
        u32_at(b, 40) == data_len,
{
    reveal(header_bytes);
    assert(b.subrange(0, 4) =~= le32(RIFF));
    lemma_le32_reads_back(b, 0, RIFF);
    assert(b.subrange(4, 8) =~= le32(riff_len));
    lemma_le32_reads_back(b, 4, riff_len);
    assert(b.subrange(8, 12) =~= le32(WAVE));
    lemma_le32_reads_back(b, 8, WAVE);
    assert(b.subrange(12, 16) =~= le32(FMT));
    lemma_le32_reads_back(b, 12, FMT);
    assert(b.subrange(16, 20) =~= le32(16));
    lemma_le32_reads_back(b, 16, 16);
    assert(b.subrange(20, 22) =~= le16(FORMAT_FLOAT));
    lemma_le16_reads_back(b, 20, FORMAT_FLOAT);
    assert(b.subrange(22, 24) =~= le16(1));
    lemma_le16_reads_back(b, 22, 1);
    assert(b.subrange(24, 28) =~= le32(rate));
    lemma_le32_reads_back(b, 24, rate);
    assert(b.subrange(34, 36) =~= le16(32));
    lemma_le16_reads_back(b, 34, 32);
    assert(b.subrange(36, 40) =~= le32(DATA));
    lemma_le32_reads_back(b, 36, DATA);
    assert(b.subrange(40, 44) =~= le32(data_len));
    lemma_le32_reads_back(b, 40, data_len);
}

/// The layout of a file whose data field says `data_len` and which holds the
/// bytes `rest` after its header. Where the field says more than there is, what
/// there is counts.
proof fn lemma_layout_of_written(rate: u32, riff_len: u32, data_len: u32, rest: Seq<u8>)
    requires
        rate > 0,
        data_len % 2 == 0,
        data_len >= rest.len(),
        rest.len() <= usize::MAX,
    ensures
        layout_of(header_bytes(rate, riff_len, data_len) + rest) == Ok::<Layout, WavError>(
            Layout {
                encoding: Encoding::Float32,
                channels: 1,
                rate,
                offset: 44,
                frames: (rest.len() / 4) as usize,
            },
        ),
{
    let b = header_bytes(rate, riff_len, data_len) + rest;
    lemma_header_fields(b, rate, riff_len, data_len, rest);
    let f = format_at(b, 20, 16);
    assert(walk(b, 12, None, None) == walk(b, 36, Some(f), None));
    let found = (Some(f), Some((44int, rest.len() as int)));
    if 44 + data_len > b.len() {
        assert(walk(b, 36, Some(f), None) == Ok::<
            (Option<Format>, Option<(int, int)>),
            WavError,
        >(found));
    } else {
        assert(walk(b, 36, Some(f), None) == walk(
            b,
            44 + data_len,
            Some(f),
            Some((44int, data_len as int)),
        ));
        assert(walk(b, 44 + data_len, Some(f), Some((44int, data_len as int))) == Ok::<
            (Option<Format>, Option<(int, int)>),
            WavError,
        >(found));
    }
}

/// Samples behind any header of 44 bytes are read as they were written, as far
/// as `m` bytes of them go.
proof fn lemma_stored_behind_header(h: Seq<u8>, samples: Seq<Bits>, m: int, l: Layout)
    requires
        h.len() == 44,
        0 <= m <= 4 * samples.len(),
        l.encoding == Encoding::Float32,
        l.channels == 1,
        l.offset == 44,
    ensures
        stored_samples(h + sample_bytes(samples).take(m), l, m / 4) == samples.take(
            m / 4,
        ).map_values(|s: Bits| Sample::Float32(s)),
{
    let all = sample_bytes(samples);
    lemma_sample_bytes_len(samples);
    let b = h + all.take(m);
    assert forall|k: int| 0 <= k < m / 4 implies #[trigger] stored(
        b,
        44 + k * 4,
        Encoding::Float32,
    ) == Sample::Float32(samples[k]) by {
        lemma_sample_bytes(samples, k);
        assert(b.subrange(44 + 4 * k, 44 + 4 * k + 4) =~= all.subrange(4 * k, 4 * k + 4));
        lemma_le32_reads_back(b, 44 + 4 * k, samples[k]);
    }
    assert(stored_samples(b, l, m / 4) =~= samples.take(m / 4).map_values(
        |s: Bits| Sample::Float32(s),
    ));
}

/// Reading gives back what was written, bit for bit: the samples, the rate, one
/// channel.
pub proof fn reading_gives_back_what_was_written(samples: Seq<Bits>, rate: u32)
    requires
        36 + 4 * samples.len() <= u32::MAX,
        rate > 0,
    ensures
        layout_of(file_bytes(samples, rate)) matches Ok(l) && {
            &&& l.rate == rate
            &&& l.channels == 1
            &&& l.frames == samples.len()
            &&& stored_samples(file_bytes(samples, rate), l, l.frames as int)
                == samples.map_values(|s: Bits| Sample::Float32(s))
        },
{
    let n = samples.len() as int;
    a_cut_off_file_is_read_as_far_as_it_goes(samples, rate, 4 * n);
    lemma_sample_bytes_len(samples);
    lemma_header_fields(
        file_bytes(samples, rate),
        rate,
        (36 + 4 * n) as u32,
        (4 * n) as u32,
        sample_bytes(samples),
    );
    assert(file_bytes(samples, rate).take(44 + 4 * n) =~= file_bytes(samples, rate));
    assert(samples.take(n) =~= samples);
}

/// A recording that was cut off is read as far as it goes: with the first `m`
/// bytes of its samples there, the whole samples among them come back.
pub proof fn a_cut_off_file_is_read_as_far_as_it_goes(samples: Seq<Bits>, rate: u32, m: int)
    requires
        36 + 4 * samples.len() <= u32::MAX,
        rate > 0,
        0 <= m <= 4 * samples.len(),
    ensures
        layout_of(file_bytes(samples, rate).take(44 + m)) matches Ok(l) && {
            &&& l.rate == rate
            &&& l.channels == 1
            &&& l.frames == m / 4
            &&& stored_samples(file_bytes(samples, rate).take(44 + m), l, l.frames as int)
                == samples.take(m / 4).map_values(|s: Bits| Sample::Float32(s))
        },
{
    let n = samples.len() as int;
    let all = sample_bytes(samples);
    lemma_sample_bytes_len(samples);
    let h = header_bytes(rate, (36 + 4 * n) as u32, (4 * n) as u32);
    lemma_header_fields(
        file_bytes(samples, rate),
        rate,
        (36 + 4 * n) as u32,
        (4 * n) as u32,
        all,
    );
    assert(file_bytes(samples, rate).take(44 + m) =~= h + all.take(m));
    lemma_layout_of_written(rate, (36 + 4 * n) as u32, (4 * n) as u32, all.take(m));
    lemma_stored_behind_header(h, samples, m, layout_of(h + all.take(m))->Ok_0);
}

/// A chunk that is neither format nor data changes nothing: the walk goes on
/// behind it.
pub proof fn other_chunks_are_skipped(
    b: Seq<u8>,
    pos: int,
    fmt: Option<Format>,
    data: Option<(int, int)>,
)
    requires
        0 <= pos,
        pos + 8 + u32_at(b, pos + 4) <= b.len(),
        u32_at(b, pos) != FMT,
        u32_at(b, pos) != DATA,
    ensures
        walk(b, pos, fmt, data) == walk(
            b,
            pos + 8 + u32_at(b, pos + 4) + u32_at(b, pos + 4) % 2,
            fmt,
            data,
        ),
{
}

/// A number read as a signed one lies round zero, and differs from what it was by a multiple
/// of the number of values.
pub proof fn signed_numbers_lie_round_zero(u: int, wrap: int)
    requires
        0 <= u < wrap,
        wrap % 2 == 0,
    ensures
        -wrap <= 2 * as_signed(u, wrap) < wrap,
        as_signed(u, wrap) == u || as_signed(u, wrap) == u - wrap,
        (as_signed(u, wrap) >= 0) == (u < wrap / 2),
{
}

/// Samples are read low byte first. Whole numbers have their sign in the highest bit, and a
/// float is the pattern of its bytes.
pub proof fn samples_are_read_low_byte_first(b: Seq<u8>, at: int)
    requires
        0 <= at,
        at + 8 <= b.len(),
    ensures
        ({
            let two = b[at] + 0x100 * b[at + 1];
            let three = two + 0x1_0000 * b[at + 2];
            let four = three + 0x100_0000 * b[at + 3];
            let high = b[at + 4] + 0x100 * b[at + 5] + 0x1_0000 * b[at + 6] + 0x100_0000 * b[at + 7];
            &&& stored(b, at, Encoding::Pcm16) matches Sample::Pcm16(v) && v == (if b[at + 1] < 0x80 {
                two
            } else {
                two - 0x1_0000
            })
            &&& stored(b, at, Encoding::Pcm24) matches Sample::Pcm24(v) && v == (if b[at + 2] < 0x80 {
                three
            } else {
                three - 0x100_0000
            })
            &&& stored(b, at, Encoding::Pcm32) matches Sample::Pcm32(v) && v == (if b[at + 3] < 0x80 {
                four
            } else {
                four - 0x1_0000_0000
            })
            &&& stored(b, at, Encoding::Float32) matches Sample::Float32(v) && v == four
            &&& stored(b, at, Encoding::Float64) matches Sample::Float64(v) && v == four
                + 0x1_0000_0000 * high
        }),
{
    reveal(u16_at);
    reveal(u32_at);
}

/// Channels take turns: sample `c` of frame `f` stands behind all earlier frames and behind
/// the channels before it.
pub proof fn channels_take_turns(b: Seq<u8>, l: Layout, frames: int, f: int, c: int)
    requires
        0 <= f < frames,
        0 <= c < l.channels,
    ensures
        0 <= f * l.channels + c < stored_samples(b, l, frames).len(),
        stored_samples(b, l, frames).len() == frames * l.channels,
        stored_samples(b, l, frames)[f * l.channels + c] == stored(
            b,
            l.offset + f * (l.channels * width_of(l.encoding)) + c * width_of(l.encoding),
            l.encoding,
        ),
{
    let n = l.channels as int;
    let w = width_of(l.encoding);
    assert(0 <= f * n + c < frames * n) by (nonlinear_arith)
        requires
            0 <= f < frames,
            0 <= c < n,
    ;
    assert((f * n + c) * w == f * (n * w) + c * w) by (nonlinear_arith);
}

/// The bits of a sample are the bits of its bytes; whole numbers have format one and floats
/// format three.
pub proof fn bits_fill_their_bytes(format: u16, bits: u16)
    ensures
        encoding_of(format, bits) matches Some(e) ==> {
            &&& 8 * width_of(e) == bits
            &&& format == 1 <==> (e == Encoding::Pcm16 || e == Encoding::Pcm24 || e
                == Encoding::Pcm32)
            &&& format == 3 <==> (e == Encoding::Float32 || e == Encoding::Float64)
        },
        format == 1 ==> (encoding_of(format, bits) is Some <==> bits == 16 || bits == 24 || bits
            == 32),
        format == 3 ==> (encoding_of(format, bits) is Some <==> bits == 32 || bits == 64),
        format != 1 && format != 3 ==> encoding_of(format, bits) is None,
{
}

/// A cap never lengthens a file, and holds where it is the smaller number.
pub proof fn a_cap_only_shortens(frames: int, cap: usize)
    ensures
        capped(frames, None) == frames,
        capped(frames, Some(cap)) <= frames,
        capped(frames, Some(cap)) <= cap,
        capped(frames, Some(cap)) == frames || capped(frames, Some(cap)) == cap,
{
}

/// All whole frames of the data are there, and no more: another one would not fit. They are
/// those of the format and the data that the chunks show.
pub proof fn all_whole_frames_are_there(b: Seq<u8>, f: Format, offset: int, len: int)
    requires
        walk(b, 12, None, None) == Ok::<(Option<Format>, Option<(int, int)>), WavError>(
            (Some(f), Some((offset, len))),
        ),
        layout_of(b) is Ok,
        0 <= len <= usize::MAX,
        0 <= offset <= usize::MAX,
    ensures
        ({
            let l = layout_of(b)->Ok_0;
            let frame = width_of(l.encoding) * l.channels;
            &&& l.rate == f.rate && l.channels == f.channels && l.offset == offset
            &&& l.frames * frame <= len < (l.frames + 1) * frame
        }),
{
    let l = layout_of(b)->Ok_0;
    let frame = width_of(l.encoding) * l.channels;
    assert(frame > 0) by (nonlinear_arith)
        requires
            frame == width_of(l.encoding) * l.channels,
            width_of(l.encoding) > 0,
            l.channels > 0,
    ;
    let q = len / frame;
    vstd::arithmetic::div_mod::lemma_fundamental_div_mod(len, frame);
    vstd::arithmetic::div_mod::lemma_mod_bound(len, frame);
    assert(q * frame == frame * q) by (nonlinear_arith);
    assert((q + 1) * frame == frame * q + frame) by (nonlinear_arith);
    assert(0 <= q <= len) by (nonlinear_arith)
        requires
            frame > 0,
            len >= 0,
            frame * q <= len < frame * q + frame,
    ;
}

/// A later format chunk counts in place of an earlier one, and so does a later data chunk.
/// Chunks end on even places.
pub proof fn the_last_chunk_of_a_kind_counts(
    b: Seq<u8>,
    pos: int,
    fmt: Option<Format>,
    data: Option<(int, int)>,
    other_fmt: Option<Format>,
    other_data: Option<(int, int)>,
)
    requires
        0 <= pos,
        pos + 8 + u32_at(b, pos + 4) <= b.len(),
    ensures
        u32_at(b, pos) == FMT ==> walk(b, pos, fmt, data) == walk(b, pos, other_fmt, data),
        u32_at(b, pos) == DATA ==> walk(b, pos, fmt, data) == walk(b, pos, fmt, other_data),
        u32_at(b, pos) == FMT && u32_at(b, pos + 4) < 16 ==> walk(b, pos, fmt, data) == Err::<
            (Option<Format>, Option<(int, int)>),
            WavError,
        >(WavError::ShortFormat),
{
}

/// A format chunk says format, channels, rate and bits at their places, low byte first. In
/// an extended one the format that counts stands farther behind.
pub proof fn a_format_chunk_says_its_fields(b: Seq<u8>, body: int, size: int)
    requires
        0 <= body,
        body + 26 <= b.len(),
    ensures
        ({
            let f = format_at(b, body, size);
            let tag = b[body] + 0x100 * b[body + 1];
            &&& f.channels == b[body + 2] + 0x100 * b[body + 3]
            &&& f.rate == b[body + 4] + 0x100 * b[body + 5] + 0x1_0000 * b[body + 6] + 0x100_0000
                * b[body + 7]
            &&& f.bits == b[body + 14] + 0x100 * b[body + 15]
            &&& tag != 0xFFFE || size < 40 ==> f.format == tag
            &&& tag == 0xFFFE && size >= 40 ==> f.format == b[body + 24] + 0x100 * b[body + 25]
        }),
{
    reveal(u16_at);
    reveal(u32_at);
}

/// The head of a file that was written shows its rate and how many bytes of samples it has,
/// whatever the data chunk says: also where its length was never filled in.
pub proof fn the_head_shows_the_length(rate: u32, riff_len: u32, data_len: u32, rest: Seq<u8>)
    requires
        rate > 0,
        44 + rest.len() <= u64::MAX,
    ensures
        ({
            let b = header_bytes(rate, riff_len, data_len) + rest;
            &&& begins_as_wav(b)
            &&& find_head(b, 12, b.len() as int) == Some(
                HeadInfo { rate, frame_bytes: 4, data_bytes: rest.len() as u64 },
            )
            &&& find_head(b.take(44), 12, b.len() as int) == find_head(b, 12, b.len() as int)
        }),
{
    let b = header_bytes(rate, riff_len, data_len) + rest;
    lemma_header_fields(b, rate, riff_len, data_len, rest);
    let none = Seq::<u8>::empty();
    assert(b.take(44) =~= header_bytes(rate, riff_len, data_len) + none);
    lemma_header_fields(b.take(44), rate, riff_len, data_len, none);
    let total = b.len() as int;
    let info = HeadInfo { rate, frame_bytes: 4, data_bytes: rest.len() as u64 };
    assert(head_info(b, 20, 16, total).frame_bytes == 4) by (nonlinear_arith)
        requires
            u16_at(b, 22) == 1,
            u16_at(b, 34) == 32,
    ;
    assert(head_info(b.take(44), 20, 16, total).frame_bytes == 4) by (nonlinear_arith)
        requires
            u16_at(b.take(44), 22) == 1,
            u16_at(b.take(44), 34) == 32,
    ;
    assert(head_info(b, 20, 16, total) == info);
    assert(head_info(b.take(44), 20, 16, total) == info);
}

/// A file begins as a WAV file just where it spells `RIFF`, and `WAVE` behind four more
/// bytes.
pub proof fn a_wav_file_spells_its_kind(b: Seq<u8>)
    ensures
        begins_as_wav(b) <==> b.len() >= 12 && b[0] == 0x52 && b[1] == 0x49 && b[2] == 0x46 && b[3]
            == 0x46 && b[8] == 0x57 && b[9] == 0x41 && b[10] == 0x56 && b[11] == 0x45,
{
    reveal(u32_at);
}

} // verus!
