//! Samples as devices want them: interleaved, in integer or floating-point
//! formats.
use crate::single::{self, Bits};
use crate::wav::{self, Encoding, Sample};
use vstd::prelude::*;

verus! {

/// Minus one, the lowest sample value.
pub const MINUS_ONE: Bits = 0xBF80_0000;

/// Is a device's sample an integer or a floating-point number?
#[derive(Clone, Copy, PartialEq, Eq, Structural, Debug)]
pub enum SampleType {
    Int,
    Float,
}

/// How a sample type of a width is stored, where it is known.
pub open spec fn encoding_for(ty: SampleType, store_bits: usize) -> Option<Encoding> {
    match ty {
        SampleType::Float => if store_bits == 32 {
            Some(Encoding::Float32)
        } else {
            None
        },
        SampleType::Int => if store_bits == 16 {
            Some(Encoding::Pcm16)
        } else if store_bits == 24 {
            Some(Encoding::Pcm24)
        } else if store_bits == 32 {
            Some(Encoding::Pcm32)
        } else {
            None
        },
    }
}

fn encoding_of(ty: SampleType, store_bits: usize) -> (e: Option<Encoding>)
    ensures
        e == encoding_for(ty, store_bits),
{
    match ty {
        SampleType::Float => if store_bits == 32 {
            Some(Encoding::Float32)
        } else {
            None
        },
        SampleType::Int => if store_bits == 16 {
            Some(Encoding::Pcm16)
        } else if store_bits == 24 {
            Some(Encoding::Pcm24)
        } else if store_bits == 32 {
            Some(Encoding::Pcm32)
        } else {
            None
        },
    }
}

/// Where channel `c` of frame `f` begins.
pub open spec fn place(f: int, c: int, channels: int, store_bits: int) -> int {
    (f * channels + c) * (store_bits / 8)
}

/// What a device buffer holds for channel `c` of frame `f`: `None` past its
/// end, and silence where the format is not known.
pub open spec fn held(
    raw: Seq<u8>,
    f: int,
    c: int,
    channels: int,
    store_bits: usize,
    ty: SampleType,
) -> Option<Sample> {
    let at = place(f, c, channels, store_bits as int);
    if at + store_bits / 8 > raw.len() {
        None
    } else {
        match encoding_for(ty, store_bits) {
            Some(e) => Some(wav::stored(raw, at, e)),
            None => Some(Sample::Float32(single::ZERO)),
        }
    }
}

/// Reads channel `c` of frame `f` from a device buffer.
pub fn decode_sample(
    raw: &[u8],
    f: usize,
    c: usize,
    channels: usize,
    store_bits: usize,
    ty: SampleType,
) -> (r: Option<Sample>)
    requires
        place(f as int, c as int, channels as int, store_bits as int) + store_bits / 8
            <= usize::MAX,
        f * channels + c <= usize::MAX,
    ensures
        r == held(raw@, f as int, c as int, channels as int, store_bits, ty),
{
    let bytes: usize = store_bits / 8;
    assert(0 <= f * channels) by (nonlinear_arith)
        requires
            f >= 0,
            channels >= 0,
    ;
    let k: usize = f * channels + c;
    assert(0 <= k * bytes) by (nonlinear_arith)
        requires
            k >= 0,
            bytes >= 0,
    ;
    let at: usize = k * bytes;
    if at + bytes > raw.len() {
        return None;
    }
    match encoding_of(ty, store_bits) {
        Some(e) => Some(wav::sample_at(raw, at, e)),
        None => Some(Sample::Float32(single::ZERO)),
    }
}

/// A sample value held between -1 and 1, so that an integer format clips rather
/// than wraps.
pub fn clip(v: Bits) -> (r: Bits)
    ensures
        r == single::clamped(v, MINUS_ONE, single::ONE),
{
    single::clamp(v, MINUS_ONE, single::ONE)
}

/// A signed number as an unsigned one of `wrap` values.
pub open spec fn as_unsigned(v: int, wrap: int) -> int {
    if v < 0 {
        v + wrap
    } else {
        v
    }
}

/// The bytes of a sample, low byte first. A sample of 24 bits lies within its
/// range.
pub open spec fn bytes_of(s: Sample) -> Seq<u8> {
    match s {
        Sample::Pcm16(v) => wav::le16(as_unsigned(v as int, 0x1_0000) as u16),
        Sample::Pcm24(v) => wav::le32(as_unsigned(v as int, 0x100_0000) as u32).take(3),
        Sample::Pcm32(v) => wav::le32(as_unsigned(v as int, 0x1_0000_0000) as u32),
        Sample::Float32(b) => wav::le32(b),
        Sample::Float64(b) => wav::le32((b % 0x1_0000_0000) as u32) + wav::le32(
            (b / 0x1_0000_0000) as u32,
        ),
    }
}

/// Can a sample be stored in this encoding?
pub open spec fn fits(s: Sample, e: Encoding) -> bool {
    match (s, e) {
        (Sample::Pcm16(_), Encoding::Pcm16) => true,
        (Sample::Pcm24(v), Encoding::Pcm24) => -0x80_0000 <= v < 0x80_0000,
        (Sample::Pcm32(_), Encoding::Pcm32) => true,
        (Sample::Float32(_), Encoding::Float32) => true,
        (Sample::Float64(_), Encoding::Float64) => true,
        _ => false,
    }
}

/// Byte `i` of a sample.
fn sample_byte(s: Sample, i: usize, Ghost(e): Ghost<Encoding>) -> (b: u8)
    requires
        fits(s, e),
        e != Encoding::Float64,
        i < wav::width_of(e),
    ensures
        b == bytes_of(s)[i as int],
        bytes_of(s).len() == wav::width_of(e),
{
    let u: u32 = match s {
        Sample::Pcm16(x) => if x < 0 {
            (x as i32 + 0x1_0000) as u32
        } else {
            x as u32
        },
        Sample::Pcm24(x) => if x < 0 {
            (x + 0x100_0000) as u32
        } else {
            x as u32
        },
        Sample::Pcm32(x) => if x < 0 {
            (x as i64 + 0x1_0000_0000) as u32
        } else {
            x as u32
        },
        Sample::Float32(b) => b,
        Sample::Float64(_) => 0,
    };
    if i == 0 {
        (u % 0x100) as u8
    } else if i == 1 {
        (u / 0x100 % 0x100) as u8
    } else if i == 2 {
        (u / 0x1_0000 % 0x100) as u8
    } else {
        (u / 0x100_0000) as u8
    }
}

/// A buffer with `bytes` written at `at`.
pub open spec fn put(raw: Seq<u8>, at: int, bytes: Seq<u8>) -> Seq<u8> {
    Seq::new(
        raw.len(),
        |i: int|
            if at <= i < at + bytes.len() {
                bytes[i - at]
            } else {
                raw[i]
            },
    )
}

/// A buffer with `bytes` written for the first `n` channels of frame `f`, as
/// far as it reaches.
pub open spec fn spread(
    raw: Seq<u8>,
    f: int,
    n: int,
    channels: int,
    store_bits: int,
    bytes: Seq<u8>,
) -> Seq<u8>
    decreases n,
{
    if n <= 0 {
        raw
    } else {
        let before = spread(raw, f, n - 1, channels, store_bits, bytes);
        let at = place(f, n - 1, channels, store_bits);
        if at + store_bits / 8 > raw.len() {
            before
        } else {
            put(before, at, bytes)
        }
    }
}

/// What is written for a sample in a known format, or zeros in an unknown one.
pub open spec fn written_for(s: Sample, store_bits: usize, ty: SampleType) -> Seq<u8> {
    match encoding_for(ty, store_bits) {
        Some(_) => bytes_of(s),
        None => Seq::new((store_bits / 8) as nat, |i: int| 0u8),
    }
}

/// Writes a sample at `at`: its bytes in a known format, zeros in an unknown one.
fn put_sample(raw: &mut Vec<u8>, at: usize, store_bits: usize, ty: SampleType, s: Sample)
    requires
        encoding_for(ty, store_bits) matches Some(e) ==> fits(s, e),
        at + store_bits / 8 <= old(raw)@.len(),
    ensures
        final(raw)@ == put(old(raw)@, at as int, written_for(s, store_bits, ty)),
{
    let bytes: usize = store_bits / 8;
    let total: usize = raw.len();
    let known: Option<Encoding> = encoding_of(ty, store_bits);
    let ghost content = written_for(s, store_bits, ty);
    let mut i: usize = 0;
    while i < bytes
        invariant
            i <= bytes,
            bytes == store_bits / 8,
            total == raw@.len(),
            at + bytes <= total,
            raw@.len() == old(raw)@.len(),
            known == encoding_for(ty, store_bits),
            known matches Some(e) ==> fits(s, e),
            content == written_for(s, store_bits, ty),
            content.len() == bytes,
            raw@ == put(old(raw)@, at as int, content.take(i as int)),
        decreases bytes - i,
    {
        let b: u8 = match known {
            Some(e) => sample_byte(s, i, Ghost(e)),
            None => 0,
        };
        raw[at + i] = b;
        i = i + 1;
        assert(raw@ =~= put(old(raw)@, at as int, content.take(i as int)));
    }
    assert(content.take(i as int) =~= content);
}

/// Writes a sample into every channel of frame `f` of a device buffer. Returns
/// false where the buffer ends before the frame does: there is no room for
/// later frames either.
pub fn encode_frame(
    raw: &mut Vec<u8>,
    f: usize,
    channels: usize,
    store_bits: usize,
    ty: SampleType,
    s: Sample,
) -> (fits_whole: bool)
    requires
        encoding_for(ty, store_bits) matches Some(e) ==> fits(s, e),
        (f + 1) * channels <= usize::MAX,
        (f + 1) * channels * (store_bits / 8) + store_bits / 8 <= usize::MAX,
    ensures
        final(raw)@ == spread(
            old(raw)@,
            f as int,
            channels as int,
            channels as int,
            store_bits as int,
            written_for(s, store_bits, ty),
        ),
        fits_whole == (channels == 0 || place(
            f as int,
            channels - 1,
            channels as int,
            store_bits as int,
        ) + store_bits / 8 <= old(raw)@.len()),
{
    let bytes: usize = store_bits / 8;
    let mut c: usize = 0;
    let mut whole: bool = true;
    while c < channels
        invariant
            c <= channels,
            bytes == store_bits / 8,
            encoding_for(ty, store_bits) matches Some(e) ==> fits(s, e),
            (f + 1) * channels <= usize::MAX,
            (f + 1) * channels * (store_bits / 8) + store_bits / 8 <= usize::MAX,
            raw@.len() == old(raw)@.len(),
            raw@ == spread(
                old(raw)@,
                f as int,
                c as int,
                channels as int,
                store_bits as int,
                written_for(s, store_bits, ty),
            ),
            whole == (c == 0 || place(f as int, c - 1, channels as int, store_bits as int)
                + store_bits / 8 <= old(raw)@.len()),
        decreases channels - c,
    {
        assert(0 <= f * channels && f * channels + c < (f + 1) * channels) by (nonlinear_arith)
            requires
                c < channels,
                f >= 0,
        ;
        let k: usize = f * channels + c;
        assert(0 <= k * bytes && k * bytes <= (f + 1) * channels * bytes) by (nonlinear_arith)
            requires
                k < (f + 1) * channels,
                bytes >= 0,
                k >= 0,
        ;
        let at: usize = k * bytes;
        if at + bytes > raw.len() {
            whole = false;
        } else {
            put_sample(raw, at, store_bits, ty, s);
            whole = true;
        }
        c = c + 1;
    }
    whole
}

/// What is read at a place depends on the bytes there alone.
proof fn lemma_stored_is_local(a: Seq<u8>, b: Seq<u8>, at: int, e: Encoding)
    requires
        0 <= at,
        at + wav::width_of(e) <= a.len(),
        a.len() == b.len(),
        forall|i: int| at <= i < at + wav::width_of(e) ==> a[i] == b[i],
    ensures
        wav::stored(a, at, e) == wav::stored(b, at, e),
{
    reveal(wav::u16_at);
    reveal(wav::u32_at);
}

/// Every channel of a frame gives back the sample that the frame was given.
pub proof fn every_channel_gives_the_sample_back(
    raw: Seq<u8>,
    f: int,
    n: int,
    c: int,
    channels: int,
    store_bits: usize,
    ty: SampleType,
    s: Sample,
)
    requires
        0 <= c < n <= channels,
        0 <= f,
        encoding_for(ty, store_bits) matches Some(e) && fits(s, e),
        place(f, n - 1, channels, store_bits as int) + store_bits / 8 <= raw.len(),
    ensures
        held(
            spread(raw, f, n, channels, store_bits as int, written_for(s, store_bits, ty)),
            f,
            c,
            channels,
            store_bits,
            ty,
        ) == Some(s),
    decreases n,
{
    let e = encoding_for(ty, store_bits)->0;
    let w = (store_bits / 8) as int;
    let content = written_for(s, store_bits, ty);
    let before = spread(raw, f, n - 1, channels, store_bits as int, content);
    lemma_spread_len(raw, f, n - 1, channels, store_bits as int, content);
    let last = place(f, n - 1, channels, store_bits as int);
    let at = place(f, c, channels, store_bits as int);
    assert(w == wav::width_of(e));
    assert(0 <= at && at + w <= last + w && (c < n - 1 ==> at + w <= last)) by (nonlinear_arith)
        requires
            at == (f * channels + c) * w,
            last == (f * channels + (n - 1)) * w,
            0 <= c <= n - 1,
            0 <= f,
            0 <= channels,
            0 <= w,
    ;
    if c == n - 1 {
        samples_come_back_from_their_bytes(before, at, s, e);
    } else {
        assert(place(f, n - 2, channels, store_bits as int) <= last) by (nonlinear_arith)
            requires
                last == (f * channels + (n - 1)) * w,
                place(f, n - 2, channels, store_bits as int) == (f * channels + (n - 2)) * w,
                0 <= w,
        ;
        every_channel_gives_the_sample_back(raw, f, n - 1, c, channels, store_bits, ty, s);
        lemma_stored_is_local(put(before, last, content), before, at, e);
    }
}

proof fn lemma_spread_len(
    raw: Seq<u8>,
    f: int,
    n: int,
    channels: int,
    store_bits: int,
    bytes: Seq<u8>,
)
    ensures
        spread(raw, f, n, channels, store_bits, bytes).len() == raw.len(),
    decreases n,
{
    if n > 0 {
        lemma_spread_len(raw, f, n - 1, channels, store_bits, bytes);
    }
}

/// What a device buffer was given for a sample is what it gives back, in every
/// format: bytes written at a place are read from it as the same sample.
pub proof fn samples_come_back_from_their_bytes(raw: Seq<u8>, at: int, s: Sample, e: Encoding)
    requires
        fits(s, e),
        0 <= at,
        at + wav::width_of(e) <= raw.len(),
    ensures
        wav::stored(put(raw, at, bytes_of(s)), at, e) == s,
{
    let b = put(raw, at, bytes_of(s));
    let x = bytes_of(s);
    match s {
        Sample::Pcm16(v) => {
            let u = as_unsigned(v as int, 0x1_0000) as u16;
            assert(b.subrange(at, at + 2) =~= wav::le16(u));
            wav::lemma_le16_reads_back(b, at, u);
        },
        Sample::Pcm24(v) => {
            let u = as_unsigned(v as int, 0x100_0000) as u32;
            assert(x.len() == 3);
            assert(b[at] == x[0] && b[at + 1] == x[1] && b[at + 2] == x[2]);
            assert(x[0] == wav::le32(u)[0] && x[1] == wav::le32(u)[1] && x[2] == wav::le32(u)[2]);
            assert(u % 0x100 + 0x100 * (u / 0x100 % 0x100) + 0x1_0000 * (u / 0x1_0000 % 0x100)
                == u);
        },
        Sample::Pcm32(v) => {
            let u = as_unsigned(v as int, 0x1_0000_0000) as u32;
            assert(b.subrange(at, at + 4) =~= wav::le32(u));
            wav::lemma_le32_reads_back(b, at, u);
        },
        Sample::Float32(u) => {
            assert(b.subrange(at, at + 4) =~= wav::le32(u));
            wav::lemma_le32_reads_back(b, at, u);
        },
        Sample::Float64(u) => {
            let low = (u % 0x1_0000_0000) as u32;
            let high = (u / 0x1_0000_0000) as u32;
            assert(x.len() == 8);
            assert(b.subrange(at, at + 4) =~= wav::le32(low));
            assert(b.subrange(at + 4, at + 8) =~= wav::le32(high));
            wav::lemma_le32_reads_back(b, at, low);
            wav::lemma_le32_reads_back(b, at + 4, high);
        },
    }
}

/// Samples lie one behind the other: the next channel follows in its frame, the next frame
/// follows the last channel, and the first sample stands at the beginning.
pub proof fn samples_lie_one_behind_the_other(f: int, c: int, channels: int, store_bits: int)
    requires
        channels > 0,
    ensures
        place(0, 0, channels, store_bits) == 0,
        place(f, c + 1, channels, store_bits) - place(f, c, channels, store_bits) == store_bits / 8,
        place(f + 1, 0, channels, store_bits) - place(f, channels - 1, channels, store_bits)
            == store_bits / 8,
{
    let w = store_bits / 8;
    assert((f * channels + (c + 1)) * w - (f * channels + c) * w == w) by (nonlinear_arith);
    assert(((f + 1) * channels + 0) * w - (f * channels + (channels - 1)) * w == w)
        by (nonlinear_arith);
    assert((0 * channels + 0) * w == 0) by (nonlinear_arith);
}

/// A known format stores as many bits as its encoding has, floats as floats and whole
/// numbers as whole numbers.
pub proof fn encodings_fill_the_store(ty: SampleType, store_bits: usize)
    ensures
        encoding_for(ty, store_bits) matches Some(e) ==> {
            &&& 8 * wav::width_of(e) == store_bits
            &&& ty == SampleType::Float <==> e == Encoding::Float32
        },
        ty == SampleType::Int ==> (encoding_for(ty, store_bits) is Some <==> store_bits == 16
            || store_bits == 24 || store_bits == 32),
        ty == SampleType::Float ==> (encoding_for(ty, store_bits) is Some <==> store_bits == 32),
{
}

/// A sample is held just where all its bytes lie in the buffer.
pub proof fn a_sample_that_fits_is_held(
    raw: Seq<u8>,
    f: int,
    c: int,
    channels: int,
    store_bits: usize,
    ty: SampleType,
)
    ensures
        place(f, c + 1, channels, store_bits as int) <= raw.len() <==> held(
            raw,
            f,
            c,
            channels,
            store_bits,
            ty,
        ) is Some,
        place(f, c + 1, channels, store_bits as int) <= raw.len() && encoding_for(ty, store_bits) is None
            ==> held(raw, f, c, channels, store_bits, ty) == Some(Sample::Float32(0)),
{
    let w = (store_bits / 8) as int;
    assert((f * channels + (c + 1)) * w == (f * channels + c) * w + w) by (nonlinear_arith);
}

/// Bytes that are put into a buffer stand where they were put, and no others change.
pub proof fn bytes_land_where_they_are_put(raw: Seq<u8>, at: int, bytes: Seq<u8>)
    requires
        0 <= at,
        at + bytes.len() <= raw.len(),
    ensures
        put(raw, at, bytes) == raw.take(at) + bytes + raw.skip(at + bytes.len()),
{
    assert(put(raw, at, bytes) =~= raw.take(at) + bytes + raw.skip(at + bytes.len()));
}

/// What is written fills the place of a sample, and is silence in a format that is not
/// known.
pub proof fn unknown_formats_get_silence(s: Sample, store_bits: usize, ty: SampleType, i: int)
    requires
        encoding_for(ty, store_bits) is None,
    ensures
        written_for(s, store_bits, ty).len() == store_bits / 8,
        0 <= i < store_bits / 8 ==> written_for(s, store_bits, ty)[i] == 0,
{
}

} // verus!
