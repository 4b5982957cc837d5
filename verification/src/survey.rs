//! What a machine's sound devices could do at best: the periods that they offer,
//! the latency that these add up to, and whether that is enough.
//!
//! Periods come in units of a hundred nanoseconds or in samples. They are compared
//! and added exactly, over a common denominator.
use crate::backend;
use vstd::prelude::*;

verus! {

/// Periods are shorter than this, in units of a hundred nanoseconds (thirty
/// hours).
pub const MAX_HNS: u64 = 0x100_0000_0000;

/// The bound of the whole latency, in milliseconds.
pub const NO_GO_MS: u64 = 30;

/// A period of a device.
#[derive(Clone, Copy, PartialEq, Eq, Structural, Debug)]
pub enum Period {
    /// In units of a hundred nanoseconds.
    Hns(u64),
    /// In samples.
    Frames(u32),
}

/// The ways to a device.
#[derive(Clone, Copy, PartialEq, Eq, Structural, Debug)]
pub enum Route {
    /// Shared with the system's mixer, at its period.
    Shared,
    /// Shared, at the shorter period of the newer interface.
    LowLatency,
    /// The device for oneself.
    Exclusive,
}

impl Route {
    /// The name of the route.
    pub fn name(&self) -> (s: &'static str)
        ensures
            s@ == (match *self {
                Route::Shared => "共享模式"@,
                Route::LowLatency => "IAudioClient3"@,
                Route::Exclusive => "独占模式"@,
            }),
    {
        match *self {
            Route::Shared => "共享模式",
            Route::LowLatency => "IAudioClient3",
            Route::Exclusive => "独占模式",
        }
    }
}

/// The length of a period in units of a hundred nanoseconds divided by the rate,
/// which is a whole number for either kind of period.
pub open spec fn ticks(p: Period, rate: int) -> int {
    match p {
        Period::Hns(h) => h * rate,
        Period::Frames(f) => f * 10_000_000,
    }
}

/// Is the period one that can be reckoned with?
pub open spec fn fits(p: Period) -> bool {
    match p {
        Period::Hns(h) => h < MAX_HNS,
        Period::Frames(_) => true,
    }
}

fn ticks_of(p: Period, rate: u32) -> (t: u128)
    requires
        fits(p),
    ensures
        t == ticks(p, rate as int),
        t < 0x100_0000_0000 * 0x1_0000_0000,
{
    match p {
        Period::Hns(h) => {
            assert(0 <= h * rate <= 0x100_0000_0000 * 0xFFFF_FFFF) by (nonlinear_arith)
                requires
                    0 <= h < 0x100_0000_0000,
                    0 <= rate <= 0xFFFF_FFFF,
            ;
            (h as u128) * (rate as u128)
        },
        Period::Frames(f) => (f as u128) * 10_000_000,
    }
}

/// What a device offers.
#[derive(Clone, Copy, PartialEq, Eq, Structural, Debug)]
pub struct Caps {
    pub sample_rate: u32,
    /// The period of shared mode.
    pub shared_default: u64,
    /// The shortest period of exclusive mode.
    pub exclusive_min: u64,
    /// The shortest period of low-latency shared mode in samples, where the device
    /// has that mode.
    pub client3_min: Option<u32>,
    /// Does exclusive mode take the format of the mixer as it is?
    pub exclusive_accepts_mix_format: bool,
}

impl Caps {
    /// A device whose numbers can be reckoned with.
    pub open spec fn wf(&self) -> bool {
        self.shared_default < MAX_HNS && self.exclusive_min < MAX_HNS
    }

    /// The period of a route.
    pub open spec fn period(&self, r: Route) -> Period {
        match r {
            Route::Shared => Period::Hns(self.shared_default),
            Route::LowLatency => Period::Frames(
                match self.client3_min {
                    Some(f) => f,
                    None => 0,
                },
            ),
            Route::Exclusive => Period::Hns(self.exclusive_min),
        }
    }

    /// Is the route open at all?
    pub open spec fn offers(&self, r: Route) -> bool {
        r == Route::LowLatency ==> self.client3_min is Some
    }

    /// The length of a route's period.
    pub open spec fn length(&self, r: Route) -> int {
        ticks(self.period(r), self.sample_rate as int)
    }

    /// The route with the shortest period. Of two that are equal the one that
    /// takes less of the machine wins: shared before low-latency before exclusive.
    pub fn best(&self) -> (r: (Route, Period))
        requires
            self.wf(),
        ensures
            self.offers(r.0),
            r.1 == self.period(r.0),
            fits(r.1),
            forall|o: Route| #[trigger] self.offers(o) ==> self.length(r.0) <= self.length(o),
            r.0 == Route::LowLatency ==> self.length(r.0) < self.length(Route::Shared),
            r.0 == Route::Exclusive ==> self.length(r.0) < self.length(Route::Shared),
            r.0 == Route::Exclusive && self.client3_min is Some ==> self.length(r.0) < self.length(
                Route::LowLatency,
            ),
    {
        let mut route: Route = Route::Shared;
        let mut period: Period = Period::Hns(self.shared_default);
        let mut len: u128 = ticks_of(period, self.sample_rate);
        match self.client3_min {
            Some(f) => {
                let t: u128 = ticks_of(Period::Frames(f), self.sample_rate);
                if t < len {
                    route = Route::LowLatency;
                    period = Period::Frames(f);
                    len = t;
                }
            },
            None => {},
        }
        let x: u128 = ticks_of(Period::Hns(self.exclusive_min), self.sample_rate);
        if x < len {
            route = Route::Exclusive;
            period = Period::Hns(self.exclusive_min);
        }
        (route, period)
    }

    /// Does the device have no shared mode that is any faster than the ordinary
    /// one?
    pub fn lacks_low_latency(&self) -> (r: bool)
        requires
            self.wf(),
        ensures
            r == !(self.client3_min is Some && self.length(Route::LowLatency) < self.length(
                Route::Shared,
            )),
    {
        match self.client3_min {
            Some(f) => ticks_of(Period::Frames(f), self.sample_rate) >= ticks_of(
                Period::Hns(self.shared_default),
                self.sample_rate,
            ),
            None => true,
        }
    }
}

/// The latency of input and output together, over `20000 * in_rate * out_rate`
/// parts of a millisecond: the input block, one and a half times the larger block
/// for the ring between them, and the output block.
pub open spec fn io_parts(inp: Period, in_rate: int, out: Period, out_rate: int) -> int {
    let a = ticks(inp, in_rate) * out_rate;
    let b = ticks(out, out_rate) * in_rate;
    2 * a + 3 * (if a < b {
        b
    } else {
        a
    }) + 2 * b
}

/// The parts in a millisecond.
pub open spec fn parts_per_ms(in_rate: int, out_rate: int) -> int {
    20_000 * (in_rate * out_rate)
}

/// Does the latency of input and output, with two periods of the pitch `floor` in
/// Hz on top for the synthesis, stay within the bound?
pub open spec fn within(
    inp: Period,
    in_rate: int,
    out: Period,
    out_rate: int,
    floor: int,
) -> bool {
    io_parts(inp, in_rate, out, out_rate) * floor + 2000 * parts_per_ms(in_rate, out_rate)
        <= NO_GO_MS * parts_per_ms(in_rate, out_rate) * floor
}

/// Does the latency of input and output, with two periods of the pitch `floor` in
/// Hz on top for the synthesis, stay within the bound?
pub fn is_within(inp: Period, in_rate: u32, out: Period, out_rate: u32, floor: u32) -> (r: bool)
    requires
        fits(inp),
        fits(out),
        floor <= 1000,
    ensures
        r == within(inp, in_rate as int, out, out_rate as int, floor as int),
{
    let ti: u128 = ticks_of(inp, in_rate);
    let to: u128 = ticks_of(out, out_rate);
    proof {
        lemma_product(ti as int, out_rate as int);
        lemma_product(to as int, in_rate as int);
    }
    let a: u128 = ti * (out_rate as u128);
    let b: u128 = to * (in_rate as u128);
    let larger: u128 = if a < b {
        b
    } else {
        a
    };
    let parts: u128 = 2 * a + 3 * larger + 2 * b;
    let ghost rates = in_rate * out_rate;
    assert(0 <= in_rate * out_rate <= 0xFFFF_FFFF * 0xFFFF_FFFF) by (nonlinear_arith)
        requires
            0 <= in_rate <= 0xFFFF_FFFF,
            0 <= out_rate <= 0xFFFF_FFFF,
    ;
    let ms: u128 = 20_000 * ((in_rate as u128) * (out_rate as u128));
    assert(0 <= parts * floor <= 0x8 * 0x100_0000_0000 * 0x1_0000_0000 * 0x1_0000_0000 * 1000)
        by (nonlinear_arith)
        requires
            0 <= parts <= 0x8 * 0x100_0000_0000 * 0x1_0000_0000 * 0x1_0000_0000,
            0 <= floor <= 1000,
    ;
    assert(0 <= 30 * ms * floor <= 30 * 20_000 * 0xFFFF_FFFF * 0xFFFF_FFFF * 1000)
        by (nonlinear_arith)
        requires
            0 <= ms <= 20_000 * 0xFFFF_FFFF * 0xFFFF_FFFF,
            0 <= floor <= 1000,
    ;
    parts * (floor as u128) + 2000 * ms <= 30 * ms * (floor as u128)
}

proof fn lemma_product(t: int, rate: int)
    requires
        0 <= t < 0x100_0000_0000 * 0x1_0000_0000,
        0 <= rate <= 0xFFFF_FFFF,
    ensures
        0 <= t * rate <= 0x100_0000_0000 * 0x1_0000_0000 * 0x1_0000_0000,
{
    assert(0 <= t * rate <= 0x100_0000_0000 * 0x1_0000_0000 * 0x1_0000_0000) by (nonlinear_arith)
        requires
            0 <= t < 0x100_0000_0000 * 0x1_0000_0000,
            0 <= rate <= 0xFFFF_FFFF,
    ;
}

/// A higher pitch floor never takes longer: what is within the bound with one
/// floor is within it with every higher one.
pub proof fn a_higher_floor_never_takes_longer(
    inp: Period,
    in_rate: int,
    out: Period,
    out_rate: int,
    low: int,
    high: int,
)
    requires
        0 <= in_rate,
        0 <= out_rate,
        0 < low <= high,
        within(inp, in_rate, out, out_rate, low),
    ensures
        within(inp, in_rate, out, out_rate, high),
{
    let x = io_parts(inp, in_rate, out, out_rate);
    let s = parts_per_ms(in_rate, out_rate);
    assert(0 <= in_rate * out_rate) by (nonlinear_arith)
        requires
            0 <= in_rate,
            0 <= out_rate,
    ;
    assert(0 <= s);
    let d = 30 * s - x;
    assert(d * low >= 2000 * s) by (nonlinear_arith)
        requires
            x * low + 2000 * s <= 30 * s * low,
            d == 30 * s - x,
    ;
    assert(d * high >= d * low) by (nonlinear_arith)
        requires
            d * low >= 0,
            0 < low <= high,
    ;
    assert(x * high + 2000 * s <= 30 * s * high) by (nonlinear_arith)
        requires
            d * high >= 2000 * s,
            d == 30 * s - x,
    ;
}

/// What can be hoped for.
#[derive(Clone, Copy, PartialEq, Eq, Structural, Debug)]
pub enum Outlook {
    /// The bound is met as things are.
    Feasible,
    /// It is met with a raised pitch floor.
    Tight,
    /// It is not met at all.
    Hopeless,
}

/// The pitch floor as things are, and the highest that is considered.
pub const USUAL_FLOOR: u32 = 100;

pub const HIGHEST_FLOOR: u32 = 160;

/// What can be hoped for with these periods.
pub fn outlook(inp: Period, in_rate: u32, out: Period, out_rate: u32) -> (o: Outlook)
    requires
        fits(inp),
        fits(out),
    ensures
        o == (if within(inp, in_rate as int, out, out_rate as int, USUAL_FLOOR as int) {
            Outlook::Feasible
        } else if within(inp, in_rate as int, out, out_rate as int, HIGHEST_FLOOR as int) {
            Outlook::Tight
        } else {
            Outlook::Hopeless
        }),
{
    if is_within(inp, in_rate, out, out_rate, USUAL_FLOOR) {
        Outlook::Feasible
    } else if is_within(inp, in_rate, out, out_rate, HIGHEST_FLOOR) {
        Outlook::Tight
    } else {
        Outlook::Hopeless
    }
}

/// The periods to try in exclusive mode, in samples and in order: once, twice and
/// three times the shortest, and that of shared mode where it has one.
pub fn periods_to_try(min_hns: i64, default_hns: i64, rate: u32) -> (v: Vec<u32>)
    requires
        3 * backend::hns_frames(min_hns as int, rate as int) <= u32::MAX,
    ensures
        ({
            let n = backend::hns_frames(min_hns as int, rate as int);
            let min = if n < backend::MIN_PERIOD_FRAMES {
                backend::MIN_PERIOD_FRAMES as int
            } else {
                n
            };
            let shared = backend::hns_frames(default_hns as int, rate as int);
            v@ == (if shared > 0 {
                seq![min as u32, (2 * min) as u32, (3 * min) as u32, shared as u32]
            } else {
                seq![min as u32, (2 * min) as u32, (3 * min) as u32]
            })
        }),
        v@[0] >= 32,
        v@[1] == v@[0] + v@[0],
        v@[2] == v@[0] + v@[1],
        3 <= v@.len() <= 4,
{
    let min: u32 = backend::min_period(min_hns, rate);
    let shared: u32 = backend::frames_of(default_hns, rate);
    let mut v: Vec<u32> = Vec::new();
    v.push(min);
    v.push(2 * min);
    v.push(3 * min);
    if shared > 0 {
        v.push(shared);
    }
    v
}

/// A period in time and one in samples are measured alike: a second is as long as the
/// samples of a second, and lengths add up.
pub proof fn periods_are_measured_alike(rate: u32, h: u64, g: u64, f: u32)
    requires
        h + g <= u64::MAX,
    ensures
        ticks(Period::Hns(10_000_000), rate as int) == ticks(Period::Frames(rate), rate as int),
        ticks(Period::Hns((h + g) as u64), rate as int) == ticks(Period::Hns(h), rate as int) + ticks(
            Period::Hns(g),
            rate as int,
        ),
        ticks(Period::Frames(0), rate as int) == 0,
        f < u32::MAX ==> ticks(Period::Frames((f + 1) as u32), rate as int) - ticks(
            Period::Frames(f),
            rate as int,
        ) == 10_000_000,
{
    let r = rate as int;
    assert((h + g) * r == h * r + g * r) by (nonlinear_arith);
}

/// Input and output count alike, and two equal ones come to three and a half periods: one
/// for each, and one and a half between them.
pub proof fn input_and_output_count_alike(inp: Period, in_rate: int, out: Period, out_rate: int)
    ensures
        io_parts(inp, in_rate, out, out_rate) == io_parts(out, out_rate, inp, in_rate),
        2 * io_parts(inp, in_rate, inp, in_rate) == 7 * (2 * (ticks(inp, in_rate) * in_rate)),
{
}

/// A longer period never makes the latency shorter, so what stays within the bound with it
/// does with a shorter one.
pub proof fn longer_periods_take_longer(
    inp: Period,
    longer: Period,
    in_rate: int,
    out: Period,
    out_rate: int,
    floor: int,
)
    requires
        0 <= out_rate,
        0 <= floor,
        ticks(inp, in_rate) <= ticks(longer, in_rate),
    ensures
        io_parts(inp, in_rate, out, out_rate) <= io_parts(longer, in_rate, out, out_rate),
        within(longer, in_rate, out, out_rate, floor) ==> within(
            inp,
            in_rate,
            out,
            out_rate,
            floor,
        ),
{
    let a = ticks(inp, in_rate);
    let b = ticks(longer, in_rate);
    assert(a * out_rate <= b * out_rate) by (nonlinear_arith)
        requires
            a <= b,
            0 <= out_rate,
    ;
    let x = io_parts(inp, in_rate, out, out_rate);
    let y = io_parts(longer, in_rate, out, out_rate);
    assert(x * floor <= y * floor) by (nonlinear_arith)
        requires
            x <= y,
            0 <= floor,
    ;
}

/// Shared and exclusive mode are always open, the low-latency one just where the device has
/// it; and each route has its own period.
pub proof fn only_low_latency_can_be_missing(c: Caps)
    ensures
        c.offers(Route::Shared),
        c.offers(Route::Exclusive),
        c.offers(Route::LowLatency) <==> c.client3_min is Some,
        c.length(Route::Shared) == c.shared_default * c.sample_rate,
        c.length(Route::Exclusive) == c.exclusive_min * c.sample_rate,
        c.client3_min matches Some(f) ==> c.length(Route::LowLatency) == f * 10_000_000,
{
}

} // verus!
