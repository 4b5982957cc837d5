//! Audio backends: which one, with what settings, and the decisions on the way
//! to a running one.
use crate::metrics::Metrics;
use crate::pcm::SampleType;
use crate::single::Bits;
use crate::text;
use vstd::prelude::*;

verus! {

/// Two and a half blocks, the fill to aim for.
pub const DEFAULT_FILL_BLOCKS: Bits = 0x4020_0000;

/// A hundred hertz, the lowest pitch to make room for.
pub const DEFAULT_F0_FLOOR: Bits = 0x42C8_0000;

/// Attempts at exclusive mode before shared mode is taken.
pub const RETRIES: u32 = 4;

/// The wait before the second attempt, in milliseconds; it grows by as much
/// with every attempt.
pub const RETRY_STEP_MS: u64 = 150;

/// How long an audio thread may take to start, in milliseconds.
pub const START_TIMEOUT_MS: u32 = 3000;

/// The code of "another apartment model is in use", which does no harm.
pub const CHANGED_MODE: i32 = -2_147_417_850;

/// The smallest period asked for, in samples.
pub const MIN_PERIOD_FRAMES: u32 = 32;

/// Which backend to use.
#[derive(Clone, Copy, PartialEq, Eq, Structural, Debug)]
pub enum BackendKind {
    /// Exclusive mode if it can be had, else shared mode.
    Auto,
    /// Shared mode.
    Cpal,
    /// Exclusive mode.
    WasapiExclusive,
}

impl Default for BackendKind {
    fn default() -> (k: BackendKind)
        ensures
            k == BackendKind::Auto,
    {
        BackendKind::Auto
    }
}

/// The backend that a word names, in any mix of capitals.
pub open spec fn named_backend(s: Seq<char>) -> Option<BackendKind> {
    let w = text::lowered(s);
    if w == "auto"@ {
        Some(BackendKind::Auto)
    } else if w == "cpal"@ || w == "shared"@ {
        Some(BackendKind::Cpal)
    } else if w == "wasapi"@ || w == "exclusive"@ || w == "excl"@ {
        Some(BackendKind::WasapiExclusive)
    } else {
        None
    }
}

impl BackendKind {
    /// The backend that a word names.
    pub fn parse(s: &str) -> (r: Option<BackendKind>)
        ensures
            r == named_backend(s@),
    {
        let chars: Vec<char> = text::chars_of(s);
        let n: usize = chars.len();
        assert(chars@.subrange(0, n as int) =~= s@);
        if text::spells(&chars, 0, n, "auto") {
            Some(BackendKind::Auto)
        } else if text::spells(&chars, 0, n, "cpal") || text::spells(&chars, 0, n, "shared") {
            Some(BackendKind::Cpal)
        } else if text::spells(&chars, 0, n, "wasapi") || text::spells(&chars, 0, n, "exclusive")
            || text::spells(&chars, 0, n, "excl") {
            Some(BackendKind::WasapiExclusive)
        } else {
            None
        }
    }
}

/// The settings of a backend.
pub struct BackendConfig {
    pub kind: BackendKind,
    pub buffer_frames: u32,
    pub sample_rate: Option<u32>,
    pub target_fill_blocks: Bits,
    pub input_device: Option<String>,
    pub output_device: Option<String>,
    pub realtime_priority: bool,
    pub f0_floor: Bits,
}

impl Default for BackendConfig {
    fn default() -> (c: BackendConfig)
        ensures
            c == (BackendConfig {
                kind: BackendKind::Auto,
                buffer_frames: 256,
                sample_rate: Some(48_000),
                target_fill_blocks: DEFAULT_FILL_BLOCKS,
                input_device: None,
                output_device: None,
                realtime_priority: true,
                f0_floor: DEFAULT_F0_FLOOR,
            }),
    {
        BackendConfig {
            kind: BackendKind::Auto,
            buffer_frames: 256,
            sample_rate: Some(48_000),
            target_fill_blocks: DEFAULT_FILL_BLOCKS,
            input_device: None,
            output_device: None,
            realtime_priority: true,
            f0_floor: DEFAULT_F0_FLOOR,
        }
    }
}

/// What is known of a running backend.
pub struct BackendInfo {
    pub backend: String,
    /// Is the device taken for ourselves alone?
    pub exclusive: bool,
    pub host: String,
    pub input_device: String,
    pub output_device: String,
    pub sample_rate: u32,
    pub input_channels: u16,
    pub output_channels: u16,
    pub requested_buffer_frames: u32,
    /// The capture block; zero before it is known.
    pub input_block_frames: u32,
    /// The render block; zero before it is known.
    pub output_block_frames: u32,
    pub input_format: String,
    pub output_format: String,
    pub target_fill_blocks: Bits,
    pub algorithmic_ms: Bits,
    pub realtime_priority: bool,
    /// Why shared mode was taken in place of exclusive mode.
    pub fallback_reason: Option<String>,
}

/// The delay of the input, the ring and the output together, in samples: the
/// capture block counts twice, because the ring holds one more of it than the
/// fill.
pub open spec fn io_delay(capture: int, render: int, fill: int) -> int {
    capture + (fill + capture) + render
}

impl BackendInfo {
    /// The capture block, or the one asked for before it is known.
    pub open spec fn capture_block(&self) -> u32 {
        if self.input_block_frames > 0 {
            self.input_block_frames
        } else {
            self.requested_buffer_frames
        }
    }

    /// The render block, or the one asked for before it is known.
    pub open spec fn render_block(&self) -> u32 {
        if self.output_block_frames > 0 {
            self.output_block_frames
        } else {
            self.requested_buffer_frames
        }
    }

    /// The capture block to reckon with.
    pub fn input_block(&self) -> (n: u32)
        ensures
            n == self.capture_block(),
    {
        if self.input_block_frames > 0 {
            self.input_block_frames
        } else {
            self.requested_buffer_frames
        }
    }

    /// The render block to reckon with.
    pub fn output_block(&self) -> (n: u32)
        ensures
            n == self.render_block(),
    {
        if self.output_block_frames > 0 {
            self.output_block_frames
        } else {
            self.requested_buffer_frames
        }
    }

    /// The delay of input, ring and output in samples, where the ring keeps
    /// `fill` samples besides one capture block.
    pub fn io_frames(&self, fill: u32) -> (n: u64)
        ensures
            n == io_delay(self.capture_block() as int, self.render_block() as int, fill as int),
    {
        let capture: u64 = self.input_block() as u64;
        let render: u64 = self.output_block() as u64;
        capture + (fill as u64 + capture) + render
    }

    /// Did the device take the block size asked for?
    pub fn buffer_size_honored(&self) -> (r: bool)
        ensures
            r == (self.output_block_frames != 0 && self.output_block_frames
                == self.requested_buffer_frames),
    {
        self.output_block_frames != 0 && self.output_block_frames == self.requested_buffer_frames
    }

    /// Takes the block sizes over that are measured, as they are. Shared mode:
    /// the device decides.
    pub fn refresh_shared(&mut self, m: &Metrics)
        ensures
            *final(self) == (BackendInfo {
                input_block_frames: m.actual_input_block,
                output_block_frames: m.actual_output_block,
                ..*old(self)
            }),
    {
        self.input_block_frames = m.actual_input_block;
        self.output_block_frames = m.actual_output_block;
    }

    /// Takes the block sizes over that have been measured; those that have not
    /// stay as they were agreed on. Exclusive mode.
    pub fn refresh_exclusive(&mut self, m: &Metrics)
        ensures
            *final(self) == (BackendInfo {
                input_block_frames: if m.actual_input_block > 0 {
                    m.actual_input_block
                } else {
                    old(self).input_block_frames
                },
                output_block_frames: if m.actual_output_block > 0 {
                    m.actual_output_block
                } else {
                    old(self).output_block_frames
                },
                ..*old(self)
            }),
    {
        if m.actual_input_block > 0 {
            self.input_block_frames = m.actual_input_block;
        }
        if m.actual_output_block > 0 {
            self.output_block_frames = m.actual_output_block;
        }
    }

    /// Notes why shared mode was taken.
    pub fn set_fallback_reason(&mut self, reason: Option<String>)
        ensures
            *final(self) == (BackendInfo { fallback_reason: reason, ..*old(self) }),
    {
        self.fallback_reason = reason;
    }
}

/// One block more in the ring costs exactly one render block.
pub proof fn each_fill_block_costs_one_render_block(capture: int, render: int, blocks: int)
    ensures
        io_delay(capture, render, render * (blocks + 1)) - io_delay(
            capture,
            render,
            render * blocks,
        ) == render,
{
    assert(render * (blocks + 1) == render * blocks + render) by (nonlinear_arith);
}

/// A larger capture block costs its growth twice.
pub proof fn a_larger_capture_block_costs_twice(capture: int, more: int, render: int, fill: int)
    ensures
        io_delay(capture + more, render, fill) - io_delay(capture, render, fill) == 2 * more,
{
}

/// After render has taken a block, the ring still holds a whole capture block,
/// as long as it keeps at least one render block.
pub proof fn the_ring_absorbs_a_capture_block(capture: int, render: int, fill: int)
    requires
        fill >= render,
    ensures
        (fill + capture) - render >= capture,
{
}

/// The devices of a host.
pub struct DeviceList {
    pub host: String,
    pub default_input: Option<String>,
    pub default_output: Option<String>,
    pub inputs: Vec<String>,
    pub outputs: Vec<String>,
}

/// What to try in order to start a backend.
#[derive(Clone, Copy, PartialEq, Eq, Structural, Debug)]
pub enum StartStep {
    /// Try exclusive mode; a failure is final.
    Exclusive,
    /// Try exclusive mode; this is attempt so many, counted from zero.
    Attempt(u32),
    /// Wait so many milliseconds, then try again as the attempt of this number.
    RetryAfter { ms: u64, attempt: u32 },
    /// Take shared mode.
    Shared,
    /// Take shared mode, and tell why exclusive mode failed.
    Fallback,
}

/// What to try first.
pub fn first_step(kind: BackendKind) -> (s: StartStep)
    ensures
        s == (match kind {
            BackendKind::Cpal => StartStep::Shared,
            BackendKind::WasapiExclusive => StartStep::Exclusive,
            BackendKind::Auto => StartStep::Attempt(0),
        }),
{
    match kind {
        BackendKind::Cpal => StartStep::Shared,
        BackendKind::WasapiExclusive => StartStep::Exclusive,
        BackendKind::Auto => StartStep::Attempt(0),
    }
}

/// What to do after an attempt at exclusive mode failed: wait longer every
/// time, and after the last attempt take shared mode.
pub fn after_failure(attempt: u32) -> (s: StartStep)
    requires
        attempt < RETRIES,
    ensures
        s == (if attempt + 1 == RETRIES {
            StartStep::Fallback
        } else {
            StartStep::RetryAfter {
                ms: (RETRY_STEP_MS * (attempt + 1)) as u64,
                attempt: (attempt + 1) as u32,
            }
        }),
        s matches StartStep::RetryAfter { ms, attempt: a } ==> a == attempt + 1 && waited_before(
            a as int,
        ) == waited_before(attempt as int) + ms,
        s == StartStep::Fallback <==> attempt == RETRIES - 1,
{
    if attempt + 1 == RETRIES {
        StartStep::Fallback
    } else {
        StartStep::RetryAfter { ms: RETRY_STEP_MS * (attempt as u64 + 1), attempt: attempt + 1 }
    }
}

/// The time waited before attempt `n`, in milliseconds.
pub open spec fn waited_before(n: int) -> int
    decreases n,
{
    if n <= 0 {
        0
    } else {
        waited_before(n - 1) + RETRY_STEP_MS * n
    }
}

/// Falling back to shared mode is never put off by more than nine tenths of a
/// second of waiting.
pub proof fn falling_back_waits_less_than_a_second()
    ensures
        waited_before(RETRIES - 1) == 900,
{
    reveal_with_fuel(waited_before, 4);
}

/// What a look at a starting audio thread says.
#[derive(Clone, Copy, PartialEq, Eq, Structural, Debug)]
pub enum Poll {
    Ready,
    Failed,
    TimedOut,
    Wait,
}

/// Looks at a starting audio thread: `flag` is zero while it starts and one
/// once it runs, `waited_ms` the time waited so far.
pub fn poll(flag: u32, waited_ms: u32) -> (p: Poll)
    ensures
        p == (if waited_ms > START_TIMEOUT_MS {
            Poll::TimedOut
        } else if flag == 0 {
            Poll::Wait
        } else if flag == 1 {
            Poll::Ready
        } else {
            Poll::Failed
        }),
{
    if waited_ms > START_TIMEOUT_MS {
        Poll::TimedOut
    } else if flag == 0 {
        Poll::Wait
    } else if flag == 1 {
        Poll::Ready
    } else {
        Poll::Failed
    }
}

/// Can COM be used after an attempt to set it up? Another apartment model does
/// no harm: the audio threads set theirs up themselves.
pub fn com_usable(failed: bool, code: i32) -> (r: bool)
    ensures
        r == (!failed || code == CHANGED_MODE),
{
    !failed || code == CHANGED_MODE
}

/// The sample rate of both sides, where they agree.
pub fn agreed_rate(input: u32, output: u32) -> (r: Option<u32>)
    ensures
        r == (if input == output {
            Some(input)
        } else {
            None
        }),
{
    if input == output {
        Some(input)
    } else {
        None
    }
}

/// A duration in units of a hundred nanoseconds, in samples: rounded,
/// and kept within 32 bits.
pub open spec fn hns_frames(hns: int, rate: int) -> int {
    let n = (2 * hns * rate + 10_000_000) / 20_000_000;
    if hns < 0 || n < 0 {
        0
    } else if n > u32::MAX {
        u32::MAX as int
    } else {
        n
    }
}

/// A duration in units of a hundred nanoseconds, in samples.
pub fn frames_of(hns: i64, rate: u32) -> (frames: u32)
    ensures
        frames == hns_frames(hns as int, rate as int),
{
    if hns <= 0 {
        proof {
            if hns == 0 {
                assert(2 * hns * rate == 0) by (nonlinear_arith)
                    requires
                        hns == 0,
                ;
            }
        }
        return 0;
    }
    assert(0 <= 2 * hns * rate <= 2 * 0x8000_0000_0000_0000 * 0x1_0000_0000) by (nonlinear_arith)
        requires
            0 < hns <= 0x7FFF_FFFF_FFFF_FFFF,
            0 <= rate <= 0xFFFF_FFFF,
    ;
    let n: u128 = (2 * (hns as u128) * (rate as u128) + 10_000_000) / 20_000_000;
    if n > u32::MAX as u128 {
        u32::MAX
    } else {
        n as u32
    }
}

/// The smallest period of a device in samples, at least 32.
pub fn min_period(min_hns: i64, rate: u32) -> (frames: u32)
    ensures
        frames == (if hns_frames(min_hns as int, rate as int) < MIN_PERIOD_FRAMES {
            MIN_PERIOD_FRAMES as int
        } else {
            hns_frames(min_hns as int, rate as int)
        }),
        frames >= 32,
        frames >= hns_frames(min_hns as int, rate as int),
        frames > 32 ==> frames == hns_frames(min_hns as int, rate as int),
{
    let n: u32 = frames_of(min_hns, rate);
    if n < MIN_PERIOD_FRAMES {
        MIN_PERIOD_FRAMES
    } else {
        n
    }
}

/// A sample format to try: bits of storage, bits that count, the type.
#[derive(Clone, Copy, PartialEq, Eq, Structural, Debug)]
pub struct Candidate {
    pub store_bits: usize,
    pub valid_bits: usize,
    pub ty: SampleType,
}

/// The formats to try, in order: the one that needs no conversion first.
pub open spec fn candidates() -> Seq<Candidate> {
    seq![
        Candidate { store_bits: 32, valid_bits: 32, ty: SampleType::Float },
        Candidate { store_bits: 32, valid_bits: 24, ty: SampleType::Int },
        Candidate { store_bits: 24, valid_bits: 24, ty: SampleType::Int },
        Candidate { store_bits: 16, valid_bits: 16, ty: SampleType::Int },
    ]
}

/// The multiples of the smallest period to try with each format.
pub const MAX_MULTIPLE: u32 = 3;

/// Where a negotiation stands: the format at hand, and the multiple of the
/// smallest period at hand.
#[derive(Clone, Copy, PartialEq, Eq, Structural, Debug)]
pub struct Negotiation {
    pub format: usize,
    pub multiple: u32,
}

/// How an attempt of the negotiation came out.
#[derive(Clone, Copy, PartialEq, Eq, Structural, Debug)]
pub enum Outcome {
    /// The device does not take the format.
    FormatRefused,
    /// It takes the format, and refused the period.
    PeriodRefused,
}

impl Negotiation {
    /// Is this one of the combinations that are tried?
    pub open spec fn in_range(&self) -> bool {
        self.format < candidates().len() && 1 <= self.multiple <= MAX_MULTIPLE
    }

    /// The place of a combination in the order of trying.
    pub open spec fn rank(&self) -> int {
        self.format * MAX_MULTIPLE + self.multiple - 1
    }

    /// The first combination.
    pub fn first() -> (n: Negotiation)
        ensures
            n.in_range(),
            n.rank() == 0,
    {
        Negotiation { format: 0, multiple: 1 }
    }

    /// The format at hand, and its name.
    pub fn candidate(&self) -> (r: (Candidate, &'static str))
        requires
            self.in_range(),
        ensures
            r.0 == candidates()[self.format as int],
            r.1@ == (if self.format == 0 {
                "f32"@
            } else if self.format == 1 {
                "int24-in-32"@
            } else if self.format == 2 {
                "int24"@
            } else {
                "int16"@
            }),
    {
        if self.format == 0 {
            (Candidate { store_bits: 32, valid_bits: 32, ty: SampleType::Float }, "f32")
        } else if self.format == 1 {
            (Candidate { store_bits: 32, valid_bits: 24, ty: SampleType::Int }, "int24-in-32")
        } else if self.format == 2 {
            (Candidate { store_bits: 24, valid_bits: 24, ty: SampleType::Int }, "int24")
        } else {
            (Candidate { store_bits: 16, valid_bits: 16, ty: SampleType::Int }, "int16")
        }
    }

    /// The period to ask for, in samples.
    pub fn frames(&self, min_frames: u32) -> (n: u32)
        requires
            self.in_range(),
            min_frames * MAX_MULTIPLE <= u32::MAX,
        ensures
            n == min_frames * self.multiple,
    {
        assert(min_frames * self.multiple <= min_frames * 3) by (nonlinear_arith)
            requires
                self.multiple <= 3,
                min_frames >= 0,
        ;
        min_frames * self.multiple
    }

    /// The combination to try after a refusal: the next multiple, or the next
    /// format from its smallest period on. `None` where all are refused.
    pub fn next(&self, outcome: Outcome) -> (r: Option<Negotiation>)
        requires
            self.in_range(),
        ensures
            r matches Some(n) ==> n.in_range() && n.rank() > self.rank(),
            r == (if outcome == Outcome::PeriodRefused && self.multiple < MAX_MULTIPLE {
                Some(
                    Negotiation {
                        format: self.format,
                        multiple: (self.multiple + 1) as u32,
                    },
                )
            } else if self.format + 1 < candidates().len() {
                Some(Negotiation { format: (self.format + 1) as usize, multiple: 1 })
            } else {
                None
            }),
    {
        if outcome == Outcome::PeriodRefused && self.multiple < MAX_MULTIPLE {
            Some(Negotiation { format: self.format, multiple: self.multiple + 1 })
        } else if self.format + 1 < 4 {
            Some(Negotiation { format: self.format + 1, multiple: 1 })
        } else {
            None
        }
    }
}

/// A negotiation ends: every step goes to a later one of twelve combinations.
pub proof fn negotiations_end(n: Negotiation)
    requires
        n.in_range(),
    ensures
        0 <= n.rank() < 12,
{
}

/// Does `text` hold `part` at place `at`?
pub open spec fn holds_at(text: Seq<char>, part: Seq<char>, at: int) -> bool {
    0 <= at && at + part.len() <= text.len() && text.subrange(at, at + part.len()) == part
}

/// Does `text` hold `part` somewhere?
pub open spec fn holds(text: Seq<char>, part: Seq<char>) -> bool {
    exists|at: int| holds_at(text, part, at)
}

fn contains(text: &[char], part: &[char]) -> (r: bool)
    ensures
        r == holds(text@, part@),
{
    if part.len() > text.len() {
        return false;
    }
    let total: usize = text.len();
    let last: usize = total - part.len();
    let mut at: usize = 0;
    let mut found: bool = false;
    while at <= last && !found
        invariant
            total == text@.len(),
            last == text@.len() - part@.len(),
            at <= last + 1,
            found ==> holds(text@, part@),
            !found ==> forall|k: int| 0 <= k < at ==> !holds_at(text@, part@, k),
        decreases last + 1 - at, (if found { 0int } else { 1int }),
    {
        let mut i: usize = 0;
        let ghost window = text@.subrange(at as int, at + part@.len());
        while i < part.len() && text[at + i] == part[i]
            invariant
                i <= part@.len(),
                at <= last,
                total == text@.len(),
                last == text@.len() - part@.len(),
                window == text@.subrange(at as int, at + part@.len()),
                forall|j: int| 0 <= j < i ==> window[j] == part@[j],
            decreases part@.len() - i,
        {
            i = i + 1;
        }
        if i == part.len() {
            assert(window =~= part@);
            assert(holds_at(text@, part@, at as int));
            found = true;
        } else {
            assert(window[i as int] != part@[i as int]);
            assert(!holds_at(text@, part@, at as int));
            at = at + 1;
        }
    }
    found
}

/// Finds the first device whose name holds the words asked for. Names and words
/// come with their capitals made small; a device without a name is passed over.
pub fn pick_device(names: &Vec<Option<String>>, want: &str) -> (r: Option<usize>)
    ensures
        r matches Some(i) ==> i < names@.len() && (names@[i as int] matches Some(n) && holds(
            n@,
            want@,
        )) && forall|j: int|
            0 <= j < i ==> !(#[trigger] names@[j] matches Some(n) && holds(n@, want@)),
        r is None ==> forall|j: int|
            0 <= j < names@.len() ==> !(#[trigger] names@[j] matches Some(n) && holds(n@, want@)),
{
    let part: Vec<char> = text::chars_of(want);
    let mut i: usize = 0;
    while i < names.len()
        invariant
            i <= names@.len(),
            part@ == want@,
            forall|j: int|
                0 <= j < i ==> !(#[trigger] names@[j] matches Some(n) && holds(n@, want@)),
        decreases names@.len() - i,
    {
        if let Some(name) = &names[i] {
            let chars: Vec<char> = text::chars_of(name.as_str());
            if contains(&chars, &part) {
                return Some(i);
            }
        }
        i = i + 1;
    }
    None
}

/// Does one of the ranges of rates hold this rate?
pub fn supports_rate(ranges: &Vec<(u32, u32)>, rate: u32) -> (r: bool)
    ensures
        r == exists|i: int|
            0 <= i < ranges@.len() && (#[trigger] ranges@[i]).0 <= rate <= ranges@[i].1,
{
    let mut i: usize = 0;
    while i < ranges.len()
        invariant
            i <= ranges@.len(),
            forall|j: int|
                0 <= j < i ==> !((#[trigger] ranges@[j]).0 <= rate <= ranges@[j].1),
        decreases ranges@.len() - i,
    {
        if ranges[i].0 <= rate && rate <= ranges[i].1 {
            assert(ranges@[i as int].0 <= rate <= ranges@[i as int].1);
            return true;
        }
        i = i + 1;
    }
    false
}

/// The sample rate to use: the one asked for where both sides support it, else
/// the output's own.
pub fn choose_rate(asked: Option<u32>, both_support: bool, output_default: u32) -> (rate: u32)
    ensures
        rate == (match asked {
            Some(a) => if both_support {
                a
            } else {
                output_default
            },
            None => output_default,
        }),
        rate == output_default || asked == Some(rate),
        both_support && asked is Some ==> asked == Some(rate),
        !both_support ==> rate == output_default,
{
    match asked {
        Some(a) => if both_support {
            a
        } else {
            output_default
        },
        None => output_default,
    }
}

/// Whole frames of an interleaved block, as many as a buffer takes.
pub fn whole_frames(len: usize, channels: usize, room: usize) -> (n: usize)
    requires
        channels > 0,
    ensures
        n == crate::metrics::least(len as int / channels as int, room as int),
{
    let frames: usize = len / channels;
    if room < frames {
        room
    } else {
        frames
    }
}

/// A larger render block costs its length once, and nothing costs nothing.
pub proof fn a_larger_render_block_costs_once(capture: int, render: int, more: int, fill: int)
    ensures
        io_delay(capture, render + more, fill) - io_delay(capture, render, fill) == more,
        io_delay(0, 0, 0) == 0,
{
}

/// A duration comes out as the nearest number of samples, as long as there are so many.
pub proof fn durations_go_to_the_nearest_sample(hns: int, rate: int)
    requires
        hns >= 0,
        rate >= 0,
        hns_frames(hns, rate) < u32::MAX,
    ensures
        2 * vstd::math::abs(hns_frames(hns, rate) * 10_000_000 - hns * rate) <= 10_000_000,
{
    assert(hns * rate >= 0) by (nonlinear_arith)
        requires
            hns >= 0,
            rate >= 0,
    ;
    assert(2 * hns * rate == 2 * (hns * rate)) by (nonlinear_arith);
}

/// No duration before zero takes any sample, and a longer one takes no fewer.
pub proof fn longer_durations_take_more_samples(hns: int, longer: int, rate: int)
    requires
        hns <= longer,
        rate >= 0,
    ensures
        hns <= 0 ==> hns_frames(hns, rate) == 0,
        hns_frames(hns, rate) <= hns_frames(longer, rate),
        0 <= hns_frames(hns, rate) <= u32::MAX,
{
    assert(hns * rate <= longer * rate) by (nonlinear_arith)
        requires
            hns <= longer,
            rate >= 0,
    ;
    assert(2 * hns * rate == 2 * (hns * rate)) by (nonlinear_arith);
    assert(2 * longer * rate == 2 * (longer * rate)) by (nonlinear_arith);
    if hns == 0 {
        assert(hns * rate == 0) by (nonlinear_arith)
            requires
                hns == 0,
        ;
    }
    if longer >= 0 {
        assert(longer * rate >= 0) by (nonlinear_arith)
            requires
                longer >= 0,
                rate >= 0,
        ;
    }
}

/// Formats are tried from the widest down, no two are the same, and none claims more bits
/// than it stores; floats come first.
pub proof fn wider_formats_are_tried_first(i: int, j: int)
    requires
        0 <= i < j < candidates().len(),
    ensures
        candidates()[i].store_bits >= candidates()[j].store_bits,
        candidates()[i].valid_bits >= candidates()[j].valid_bits,
        candidates()[i] != candidates()[j],
        candidates()[i].valid_bits <= candidates()[i].store_bits,
        candidates()[j].valid_bits <= candidates()[j].store_bits,
        candidates()[0].ty == SampleType::Float,
        candidates()[j].ty == SampleType::Int,
{
}

/// A text holds what was put into it, everything that a part of it holds, and nothing that
/// is longer than itself.
pub proof fn a_text_holds_its_parts(front: Seq<char>, part: Seq<char>, back: Seq<char>, t: Seq<char>)
    ensures
        holds(front + part + back, part),
        holds(t, part) <==> exists|a: Seq<char>, b: Seq<char>| t == #[trigger] ((a + part) + b),
        part.len() > t.len() ==> !holds(t, part),
{
    let whole = front + part + back;
    assert(whole.subrange(front.len() as int, (front.len() + part.len()) as int) =~= part);
    assert(holds_at(whole, part, front.len() as int));
    if holds(t, part) {
        let at = choose|at: int| holds_at(t, part, at);
        let a = t.subrange(0, at);
        let b = t.subrange(at + part.len(), t.len() as int);
        assert(t =~= (a + part) + b);
    }
    if exists|a: Seq<char>, b: Seq<char>| t == #[trigger] ((a + part) + b) {
        let (a, b) = choose|a: Seq<char>, b: Seq<char>| t == #[trigger] ((a + part) + b);
        assert(t.subrange(a.len() as int, (a.len() + part.len()) as int) =~= part);
        assert(holds_at(t, part, a.len() as int));
    }
}

/// Capitals do not matter in the name of a backend.
pub proof fn backends_are_named_in_any_case(a: Seq<char>, b: Seq<char>)
    requires
        text::lowered(a) == text::lowered(b),
    ensures
        named_backend(a) == named_backend(b),
{
}

/// A block that was measured counts, and the one asked for only where none was; input and
/// output do not mix.
pub proof fn measured_blocks_count(info: BackendInfo, other: BackendInfo)
    requires
        other.requested_buffer_frames == info.requested_buffer_frames,
    ensures
        info.input_block_frames > 0 ==> info.capture_block() == info.input_block_frames,
        info.input_block_frames == 0 ==> info.capture_block() == info.requested_buffer_frames,
        info.output_block_frames > 0 ==> info.render_block() == info.output_block_frames,
        info.output_block_frames == 0 ==> info.render_block() == info.requested_buffer_frames,
        other.input_block_frames == info.input_block_frames ==> other.capture_block()
            == info.capture_block(),
        other.output_block_frames == info.output_block_frames ==> other.render_block()
            == info.render_block(),
{
}

} // verus!
