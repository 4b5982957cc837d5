//! Measuring the round trip: a burst goes out, and is looked for in what comes
//! in.
use crate::single::{self, Bits};
use crate::sorting;
use vstd::prelude::*;

verus! {

/// Samples of a burst.
pub const BURST_LEN: usize = 144;

/// Levels below 0.02 are never taken for the burst.
pub const DETECT_THRESHOLD: Bits = 0x3CA3_D70A;

/// The noise level to begin with: 0.001.
pub const FIRST_NOISE_FLOOR: Bits = 0x3A83_126F;

/// The probe. The render side emits the burst, the capture side looks for it.
#[derive(Clone, Copy, PartialEq, Eq, Structural, Debug)]
pub struct ImpulseProbe {
    pub sample_rate: u32,
    /// A burst is to go out.
    pub armed: bool,
    /// A burst has gone out and is waited for.
    pub pending: bool,
    /// When it went out.
    pub emit_ns: u64,
    /// The last round trip in microseconds; zero while there is none.
    pub last_us: u64,
    /// Measurements that gave a result.
    pub completed: u64,
    /// The level of the background.
    pub noise_floor: Bits,
    /// Samples captured since the burst went out.
    pub elapsed_samples: u64,
    /// The highest level while waiting.
    pub peak_seen: Bits,
}

/// The highest absolute value among the first `n` samples, and `from`.
pub open spec fn peak_of(input: Seq<Bits>, n: int, from: Bits) -> Bits
    decreases n,
{
    if n <= 0 {
        from
    } else {
        single::larger(peak_of(input, n - 1, from), single::low(input[n - 1]) as Bits)
    }
}

/// Sample `i` is the first whose absolute value reaches the threshold.
pub open spec fn onset_at(input: Seq<Bits>, threshold: Bits, i: int) -> bool {
    &&& 0 <= i < input.len()
    &&& single::at_most(threshold, single::low(input[i]) as Bits)
    &&& forall|j: int|
        0 <= j < i ==> !single::at_most(threshold, #[trigger] single::low(input[j]) as Bits)
}

/// The first sample whose absolute value reaches the threshold.
pub fn find_onset(input: &[Bits], threshold: Bits) -> (r: Option<usize>)
    ensures
        r matches Some(i) ==> onset_at(input@, threshold, i as int),
        r is None ==> forall|j: int|
            0 <= j < input@.len() ==> !single::at_most(
                threshold,
                #[trigger] single::low(input@[j]) as Bits,
            ),
{
    let mut i: usize = 0;
    while i < input.len()
        invariant
            i <= input@.len(),
            forall|j: int|
                0 <= j < i ==> !single::at_most(
                    threshold,
                    #[trigger] single::low(input@[j]) as Bits,
                ),
        decreases input@.len() - i,
    {
        let level: Bits = single::abs(input[i]);
        assert(level == single::low(input@[i as int]) as Bits);
        if single::le(threshold, level) {
            return Some(i);
        }
        i = i + 1;
    }
    None
}

/// The highest absolute value of a block.
pub fn peak(input: &[Bits]) -> (p: Bits)
    ensures
        p == peak_of(input@, input@.len() as int, single::ZERO),
{
    let mut p: Bits = single::ZERO;
    let mut i: usize = 0;
    while i < input.len()
        invariant
            i <= input@.len(),
            p == peak_of(input@, i as int, single::ZERO),
        decreases input@.len() - i,
    {
        p = single::max(p, single::abs(input[i]));
        i = i + 1;
    }
    p
}

impl ImpulseProbe {
    /// A probe at rest.
    pub fn new(sample_rate: u32) -> (p: ImpulseProbe)
        ensures
            p == (ImpulseProbe {
                sample_rate,
                armed: false,
                pending: false,
                emit_ns: 0,
                last_us: 0,
                completed: 0,
                noise_floor: FIRST_NOISE_FLOOR,
                elapsed_samples: 0,
                peak_seen: single::ZERO,
            }),
    {
        ImpulseProbe {
            sample_rate,
            armed: false,
            pending: false,
            emit_ns: 0,
            last_us: 0,
            completed: 0,
            noise_floor: FIRST_NOISE_FLOOR,
            elapsed_samples: 0,
            peak_seen: single::ZERO,
        }
    }

    /// Asks for a measurement. One that was waited for is given up.
    pub fn arm(&mut self)
        ensures
            *final(self) == (ImpulseProbe {
                pending: false,
                elapsed_samples: 0,
                peak_seen: single::ZERO,
                armed: true,
                ..*old(self)
            }),
    {
        self.pending = false;
        self.elapsed_samples = 0;
        self.peak_seen = single::ZERO;
        self.armed = true;
    }

    /// The highest level while waiting.
    pub fn peak_seen(&self) -> (p: Bits)
        ensures
            p == self.peak_seen,
    {
        self.peak_seen
    }

    /// The level of the background.
    pub fn noise_floor(&self) -> (f: Bits)
        ensures
            f == self.noise_floor,
    {
        self.noise_floor
    }

    /// The detection threshold, where `raised` is the background raised by the
    /// detection margin.
    pub fn threshold(raised: Bits) -> (t: Bits)
        ensures
            t == single::larger(DETECT_THRESHOLD, raised),
    {
        single::max(DETECT_THRESHOLD, raised)
    }

    /// The last round trip in microseconds.
    pub fn last_us(&self) -> (us: u64)
        ensures
            us == self.last_us,
    {
        self.last_us
    }

    /// Measurements that gave a result.
    pub fn completed(&self) -> (n: u64)
        ensures
            n == self.completed,
    {
        self.completed
    }

    /// Is no measurement under way?
    pub fn is_idle(&self) -> (r: bool)
        ensures
            r == (!self.armed && !self.pending),
    {
        !self.armed && !self.pending
    }

    /// Lets the burst go, where one is asked for: returns how many samples of
    /// it fit into a block of `len`.
    pub fn emit_into(&mut self, len: usize, now_ns: u64) -> (burst: Option<usize>)
        ensures
            !old(self).armed ==> burst is None && *final(self) == *old(self),
            old(self).armed ==> burst == Some(
                if len < BURST_LEN {
                    len
                } else {
                    BURST_LEN
                },
            ) && *final(self) == (ImpulseProbe {
                armed: false,
                emit_ns: now_ns,
                elapsed_samples: 0,
                pending: true,
                ..*old(self)
            }),
    {
        if !self.armed {
            return None;
        }
        self.armed = false;
        self.emit_ns = now_ns;
        self.elapsed_samples = 0;
        self.pending = true;
        if len < BURST_LEN {
            Some(len)
        } else {
            Some(BURST_LEN)
        }
    }

    /// Has the burst been out for more than half a second?
    pub open spec fn overdue(&self, elapsed: u64) -> bool {
        2 * elapsed > self.sample_rate
    }

    /// Looks for the burst in a captured block. `floor` is the background level
    /// with this block taken in, `threshold` the level to look for. Returns
    /// where the burst begins; a burst that is overdue is given up.
    pub fn scan_input(&mut self, input: &[Bits], floor: Bits, threshold: Bits) -> (onset: Option<
        usize,
    >)
        ensures
            ({
                let heard = ImpulseProbe {
                    noise_floor: if input@.len() > 0 {
                        floor
                    } else {
                        old(self).noise_floor
                    },
                    ..*old(self)
                };
                let elapsed = old(self).elapsed_samples.wrapping_add(input@.len() as u64);
                let top = peak_of(input@, input@.len() as int, single::ZERO);
                if !old(self).pending {
                    onset is None && *final(self) == heard
                } else if old(self).overdue(elapsed) {
                    onset is None && *final(self) == (ImpulseProbe {
                        elapsed_samples: elapsed,
                        pending: false,
                        ..heard
                    })
                } else {
                    &&& *final(self) == (ImpulseProbe {
                        elapsed_samples: elapsed,
                        peak_seen: if single::less(old(self).peak_seen, top) {
                            top
                        } else {
                            old(self).peak_seen
                        },
                        ..heard
                    })
                    &&& onset matches Some(i) ==> onset_at(input@, threshold, i as int)
                    &&& onset is None ==> forall|j: int|
                        0 <= j < input@.len() ==> !single::at_most(
                            threshold,
                            #[trigger] single::low(input@[j]) as Bits,
                        )
                }
            }),
            // Only a burst that went out, and not too long ago, is found.
            onset is Some ==> old(self).pending && final(self).pending,
            old(self).pending && old(self).elapsed_samples + input@.len() <= u64::MAX ==> (
            final(self).pending <==> old(self).elapsed_samples + input@.len() + old(
                self,
            ).elapsed_samples + input@.len() <= old(self).sample_rate),
            !single::nan(old(self).peak_seen) ==> single::value(final(self).peak_seen)
                >= single::value(old(self).peak_seen),
    {
        if input.len() > 0 {
            self.noise_floor = floor;
        }
        if !self.pending {
            return None;
        }
        self.elapsed_samples = self.elapsed_samples.wrapping_add(input.len() as u64);
        if self.elapsed_samples > (self.sample_rate / 2) as u64 {
            self.pending = false;
            return None;
        }
        let top: Bits = peak(input);
        if single::lt(self.peak_seen, top) {
            self.peak_seen = top;
        }
        find_onset(input, threshold)
    }

    /// The burst has come in, `offset_ns` into a block that was captured at
    /// `now_ns`: the time since it went out is the round trip. The offset is added,
    /// not taken off: `now_ns` stands for the first sample of the block, as the time
    /// of going out does for the first of its own, and a sample farther in comes that
    /// much later.
    pub fn arrived(&mut self, now_ns: u64, offset_ns: u64)
        ensures
            ({
                let arrival = if now_ns + offset_ns > u64::MAX {
                    u64::MAX as int
                } else {
                    now_ns + offset_ns
                };
                *final(self) == (if arrival > old(self).emit_ns {
                    ImpulseProbe {
                        last_us: ((arrival - old(self).emit_ns) / 1000) as u64,
                        completed: old(self).completed.wrapping_add(1),
                        pending: false,
                        ..*old(self)
                    }
                } else {
                    ImpulseProbe { pending: false, ..*old(self) }
                })
            }),
            // The round trip is the time from going out to coming in, to the microsecond below.
            old(self).emit_ns < now_ns + offset_ns <= u64::MAX ==> 1000 * final(self).last_us
                <= now_ns + offset_ns - old(self).emit_ns < 1000 * (final(self).last_us + 1),
            !final(self).pending,
    {
        let arrival: u64 = now_ns.saturating_add(offset_ns);
        if arrival > self.emit_ns {
            self.last_us = (arrival - self.emit_ns) / 1000;
            self.completed = self.completed.wrapping_add(1);
        }
        self.pending = false;
    }
}

/// What many measurements show, in microseconds.
#[derive(Clone, Copy, PartialEq, Eq, Structural, Debug)]
pub struct LatencyStats {
    pub samples: usize,
    pub min_us: u64,
    pub median_us: u64,
    /// Nine tenths lie at or below this.
    pub p90_us: u64,
    pub max_us: u64,
    /// Largest less smallest.
    pub spread_us: u64,
}

/// The number at nine tenths of `n`, rounded up, counted from zero.
pub open spec fn p90_index(n: int) -> int {
    (9 * n + 9) / 10 - 1
}

/// The statistics of ascending numbers.
pub open spec fn stats_of(s: Seq<u64>) -> LatencyStats {
    let n = s.len() as int;
    if n == 0 {
        LatencyStats { samples: 0, min_us: 0, median_us: 0, p90_us: 0, max_us: 0, spread_us: 0 }
    } else {
        LatencyStats {
            samples: n as usize,
            min_us: s[0],
            median_us: s[n / 2],
            p90_us: s[p90_index(n)],
            max_us: s[n - 1],
            spread_us: (s[n - 1] - s[0]) as u64,
        }
    }
}

impl LatencyStats {
    /// The statistics of measurements. Without any, all is zero.
    pub fn from_micros(v: &Vec<u64>) -> (r: LatencyStats)
        ensures
            forall|s: Seq<u64>| sorting::sorted_of(v@, s) ==> r == stats_of(s),
            exists|s: Seq<u64>| #[trigger] sorting::sorted_of(v@, s) && r == stats_of(s),
    {
        let s: Vec<u64> = sorting::sorted(v);
        proof {
            assert forall|t: Seq<u64>| sorting::sorted_of(v@, t) implies stats_of(t) == stats_of(
                s@,
            ) by {
                sorting::the_ascending_order_is_unique(v@, t, s@);
            }
        }
        if s.len() == 0 {
            return LatencyStats {
                samples: 0,
                min_us: 0,
                median_us: 0,
                p90_us: 0,
                max_us: 0,
                spread_us: 0,
            };
        }
        let n: usize = s.len();
        let p90: usize = n - n / 10 - 1;
        assert(p90 == p90_index(n as int));
        assert(s@[0] <= s@[n - 1]);
        LatencyStats {
            samples: n,
            min_us: s[0],
            median_us: s[n / 2],
            p90_us: s[p90],
            max_us: s[n - 1],
            spread_us: s[n - 1] - s[0],
        }
    }
}

/// The statistics lie in order: smallest, median, nine tenths, largest.
pub proof fn statistics_lie_in_order(s: Seq<u64>)
    requires
        sorting::ascending(s),
        s.len() > 0,
    ensures
        stats_of(s).min_us <= stats_of(s).median_us <= stats_of(s).p90_us <= stats_of(s).max_us,
        stats_of(s).spread_us == stats_of(s).max_us - stats_of(s).min_us,
{
    let n = s.len() as int;
    assert(0 <= n / 2 <= p90_index(n) <= n - 1);
}

/// The peak is no smaller than what it began with or the size of any sample, and is one of
/// these.
pub proof fn the_peak_is_the_largest(input: Seq<Bits>, n: int, from: Bits)
    requires
        0 <= n <= input.len(),
        !single::nan(from),
        forall|i: int| 0 <= i < n ==> !single::nan(#[trigger] input[i]),
    ensures
        !single::nan(peak_of(input, n, from)),
        single::value(peak_of(input, n, from)) >= single::value(from),
        forall|i: int|
            0 <= i < n ==> single::value(peak_of(input, n, from)) >= vstd::math::abs(
                single::value(#[trigger] input[i]),
            ),
        peak_of(input, n, from) == from || exists|i: int|
            0 <= i < n && single::value(peak_of(input, n, from)) == vstd::math::abs(
                single::value(#[trigger] input[i]),
            ),
    decreases n,
{
    if n > 0 {
        the_peak_is_the_largest(input, n - 1, from);
        let b = input[n - 1];
        assert(!single::nan(b));
        single::the_size_of_a_number(b);
    }
}

/// The onset is the first sample that is loud enough: it reaches the threshold, and every
/// sample before it stays below.
pub proof fn nothing_before_the_onset_is_loud(input: Seq<Bits>, threshold: Bits, i: int, j: int)
    requires
        onset_at(input, threshold, i),
        0 <= j < i,
        !single::nan(input[j]),
    ensures
        !single::nan(threshold),
        single::value(threshold) <= vstd::math::abs(single::value(input[i])),
        vstd::math::abs(single::value(input[j])) < single::value(threshold),
        !onset_at(input, threshold, j),
{
    single::the_size_of_a_number(input[j]);
    single::the_size_of_a_number(input[i]);
    let l = single::low(input[j]);
    assert(!single::at_most(threshold, l as Bits));
}

/// A burst is overdue when more than half a second's samples have passed, and stays so.
pub proof fn a_burst_is_overdue_after_half_a_second(p: ImpulseProbe, elapsed: u64, later: u64)
    requires
        elapsed <= later,
    ensures
        p.overdue(elapsed) ==> p.overdue(later),
        elapsed + elapsed <= p.sample_rate ==> !p.overdue(elapsed),
        elapsed >= p.sample_rate && elapsed > 0 ==> p.overdue(elapsed),
        2 * elapsed == p.sample_rate + 1 ==> p.overdue(elapsed),
{
}

/// The median has half of the measurements on each side, and nine tenths of them are no
/// larger than the ninetieth percentile, which no smaller measurement could say.
pub proof fn percentiles_cover_their_share(s: Seq<u64>)
    requires
        sorting::ascending(s),
        0 < s.len() <= usize::MAX,
    ensures
        stats_of(s).samples == s.len(),
        exists|k: int|
            0 <= k < s.len() && #[trigger] s[k] == stats_of(s).median_us && 2 * k <= s.len() < 2 * k
                + 2,
        exists|k: int|
            0 <= k < s.len() && #[trigger] s[k] == stats_of(s).p90_us && 10 * k < 9 * s.len() <= 10
                * (k + 1),
        forall|i: int|
            0 <= i < s.len() ==> stats_of(s).min_us <= #[trigger] s[i] <= stats_of(s).max_us,
        s.contains(stats_of(s).min_us),
        s.contains(stats_of(s).max_us),
{
    let n = s.len() as int;
    assert(s[n / 2] == stats_of(s).median_us);
    assert(s[p90_index(n)] == stats_of(s).p90_us);
    assert(s[0] == stats_of(s).min_us && s[n - 1] == stats_of(s).max_us);
}

} // verus!
