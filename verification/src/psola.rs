//! Scheduling of streaming pitch-synchronous overlap-add.
//!
//! The scheduler keeps the input history, finds the pitch marks in it, places
//! the output marks and says which stretch of the output is finished. Adding
//! the windowed grains up is left to the caller, which is told for every block
//! what to add and what to read.
//!
//! All positions are absolute sample counts since the start. The delay between
//! input and output is fixed at twice the longest period: a grain placed at `p`
//! reaches from `p - T` to `p + T`, and needs input up to `p + T`.
use crate::single::{self, Bits};
use crate::sizes;
use vstd::prelude::*;

verus! {

/// Length of the window table that the caller adds grains with.
pub const WINDOW_TABLE: usize = 2048;

/// Number of pitch marks that are remembered.
pub const MAX_EPOCHS: usize = 64;

/// Room in the rings beyond four of the longest periods.
pub const RING_SLACK: usize = 8192;

/// Negative infinity.
pub const NEG_INFINITY: Bits = 0xFF80_0000;

/// One half.
pub const HALF: Bits = 0x3F00_0000;

/// Two.
pub const TWO: Bits = 0x4000_0000;

/// One grain to add: the input around `src`, windowed over `2 * t` samples,
/// goes to the output around `dst`.
#[derive(Clone, Copy, PartialEq, Eq, Structural, Debug)]
pub struct Grain {
    pub src: u64,
    pub dst: u64,
    pub t: usize,
}

/// What the caller does for one block, after the grains.
#[derive(Clone, Copy, PartialEq, Eq, Structural, Debug)]
pub struct Step {
    /// Output positions below this one have been read already: grains add
    /// nothing there.
    pub floor: u64,
    /// Input positions `through_from..through_to` are copied to the output
    /// unchanged.
    pub through_from: u64,
    pub through_to: u64,
    /// Before reading, output positions `0..clear_to` are set to zero.
    pub clear_to: u64,
    /// The block is silence: the delay line has not filled yet.
    pub silent: bool,
    /// The block is read from output positions `read_from..`; each position is
    /// set to zero once read.
    pub read_from: u64,
    /// So many positions are finished; the rest of the block reads as zero.
    pub ready: usize,
}

/// The scheduler.
pub struct Psola {
    ring: Vec<Bits>,
    write_abs: u64,
    gen_abs: u64,
    out_abs: u64,
    epochs: Vec<u64>,
    epoch_head: usize,
    epoch_len: usize,
    next_syn_abs: u64,
    synth_active: bool,
    delay: u64,
    max_period: usize,
    min_period: usize,
    period: usize,
    ratio: Bits,
    formant: Bits,
    voiced: bool,
    primed: bool,
    /// Samples that were read before they were finished.
    underruns: u64,
}

/// The input sample that a ring holds for an absolute position.
pub open spec fn heard(ring: Seq<Bits>, a: int) -> Bits {
    ring[a % (ring.len() as int)]
}

/// Could the sample at `a` be a peak at all? (NaN and negative infinity cannot.)
pub open spec fn peakable(ring: Seq<Bits>, a: int) -> bool {
    single::less(NEG_INFINITY, heard(ring, a))
}

/// `r` is the place of the highest sample in `lo..=hi`, the first of several;
/// `center` where no sample there can be a peak.
pub open spec fn peak_at(ring: Seq<Bits>, lo: int, hi: int, center: int, r: int) -> bool {
    if exists|a: int| lo <= a <= hi && #[trigger] peakable(ring, a) {
        &&& lo <= r <= hi
        &&& peakable(ring, r)
        &&& forall|a: int|
            lo <= a <= hi && #[trigger] peakable(ring, a) ==> single::value(heard(ring, a))
                <= single::value(heard(ring, r))
        &&& forall|a: int|
            lo <= a < r && #[trigger] peakable(ring, a) ==> single::value(heard(ring, a))
                < single::value(heard(ring, r))
    } else {
        r == center
    }
}

/// `r` is the place of the highest sample within `radius` of `center`.
pub open spec fn peak_near(ring: Seq<Bits>, center: int, radius: int, r: int) -> bool {
    let lo = if center >= radius {
        center - radius
    } else {
        0
    };
    peak_at(ring, lo, center + radius, center, r)
}

/// The place of the highest sample within `radius` of `center`.
pub open spec fn first_peak(ring: Seq<Bits>, center: int, radius: int) -> int {
    choose|r: int| peak_near(ring, center, radius, r)
}

proof fn lemma_peak_unique(ring: Seq<Bits>, lo: int, hi: int, center: int, r: int, s: int)
    requires
        peak_at(ring, lo, hi, center, r),
        peak_at(ring, lo, hi, center, s),
    ensures
        r == s,
{
    if exists|a: int| lo <= a <= hi && #[trigger] peakable(ring, a) {
        assert(peakable(ring, r));
        assert(peakable(ring, s));
    }
}

/// How far around the predicted place a mark is searched for.
pub open spec fn search_radius(period: int) -> int {
    if period / 4 >= 1 {
        period / 4
    } else {
        1
    }
}

/// Marks with one more behind them; the oldest goes when there are too many.
pub open spec fn remembered(marks: Seq<u64>, e: u64) -> Seq<u64> {
    if marks.len() >= MAX_EPOCHS {
        marks.push(e).drop_first()
    } else {
        marks.push(e)
    }
}

/// The mark that follows `last`: the highest sample around one period later,
/// and at any rate one that lies later.
pub open spec fn following_mark(ring: Seq<Bits>, last: int, period: int) -> int {
    let e = first_peak(ring, last + period, search_radius(period));
    if e <= last {
        last + period
    } else {
        e
    }
}

/// Marks followed up to the end of the input, leaving `guard` samples beyond
/// the last place searched.
pub open spec fn followed(
    ring: Seq<Bits>,
    marks: Seq<u64>,
    period: int,
    guard: int,
    end: int,
) -> Seq<u64>
    decreases end - marks.last(),
    when marks.len() > 0 && period >= 1
{
    let last = marks.last() as int;
    if last + period + search_radius(period) + guard > end {
        marks
    } else {
        let e = following_mark(ring, last, period);
        if last < e <= end && end <= u64::MAX {
            followed(ring, remembered(marks, e as u64), period, guard, end)
        } else {
            marks
        }
    }
}

/// The marks after a block that ends at `end`: where there is none, one is
/// seeded at the highest sample one period before the last place whose window
/// is complete.
pub open spec fn marks_after(
    ring: Seq<Bits>,
    marks: Seq<u64>,
    period: int,
    guard: int,
    end: int,
) -> Seq<u64> {
    if marks.len() > 0 {
        followed(ring, marks, period, guard, end)
    } else if end < guard + period + search_radius(period) + 1 {
        marks
    } else {
        followed(
            ring,
            seq![first_peak(ring, end - guard - period, search_radius(period)) as u64],
            period,
            guard,
            end,
        )
    }
}

/// Distance between two positions.
pub open spec fn apart(a: int, b: int) -> int {
    if a < b {
        b - a
    } else {
        a - b
    }
}

/// Mark `i` is the one nearest to `p`, the newest of several.
pub open spec fn nearest_at(marks: Seq<u64>, p: int, i: int) -> bool {
    &&& 0 <= i < marks.len()
    &&& forall|j: int|
        0 <= j < marks.len() ==> apart(marks[i] as int, p) <= apart(#[trigger] marks[j] as int, p)
    &&& forall|j: int|
        i < j < marks.len() ==> apart(marks[i] as int, p) < apart(#[trigger] marks[j] as int, p)
}

/// The mark nearest to `p`, the newest of several.
pub open spec fn nearest_mark(marks: Seq<u64>, p: int) -> u64 {
    marks[choose|i: int| nearest_at(marks, p, i)]
}

/// The grains from output mark `next` on, one output period apart, as long as
/// the input reaches `guard` beyond the mark.
pub open spec fn grains_from(
    marks: Seq<u64>,
    next: int,
    t: usize,
    t_out: int,
    guard: int,
    end: int,
) -> Seq<Grain>
    decreases end + t_out - next,
    when t_out >= 1 && guard >= 0
{
    if next + guard > end || marks.len() == 0 {
        Seq::empty()
    } else {
        seq![Grain { src: nearest_mark(marks, next), dst: next as u64, t }] + grains_from(
            marks,
            next + t_out,
            t,
            t_out,
            guard,
            end,
        )
    }
}

/// The output mark at which `grains_from` stops.
pub open spec fn next_after(marks: Seq<u64>, next: int, t_out: int, guard: int, end: int) -> int
    decreases end + t_out - next,
    when t_out >= 1 && guard >= 0
{
    if next + guard > end || marks.len() == 0 {
        next
    } else {
        next_after(marks, next + t_out, t_out, guard, end)
    }
}

/// The ring after `input` has been written from position `from` on.
pub open spec fn written(ring: Seq<Bits>, from: int, input: Seq<Bits>) -> Seq<Bits>
    decreases input.len(),
{
    if input.len() == 0 {
        ring
    } else {
        written(ring, from, input.drop_last()).update(
            (from + input.len() - 1) % (ring.len() as int),
            input.last(),
        )
    }
}

/// `x` held between `lo` and `hi`.
pub open spec fn held(x: int, lo: int, hi: int) -> int {
    if x < lo {
        lo
    } else if x > hi {
        hi
    } else {
        x
    }
}

fn held_usize(x: usize, lo: usize, hi: usize) -> (r: usize)
    ensures
        r == held(x as int, lo as int, hi as int),
{
    if x < lo {
        lo
    } else if x > hi {
        hi
    } else {
        x
    }
}

impl Psola {
    /// The input history, as a ring.
    pub closed spec fn history(&self) -> Seq<Bits> {
        self.ring@
    }

    /// Input samples taken in so far.
    pub closed spec fn taken(&self) -> int {
        self.write_abs as int
    }

    /// Output positions below this one are finished.
    pub closed spec fn finished(&self) -> int {
        self.gen_abs as int
    }

    /// The next output position to be read.
    pub closed spec fn reading(&self) -> int {
        self.out_abs as int
    }

    /// The place of the next output mark; it counts while a voiced stretch is
    /// being synthesized.
    pub closed spec fn next_mark(&self) -> int {
        self.next_syn_abs as int
    }

    /// Is a voiced stretch being synthesized?
    pub closed spec fn synthesizing(&self) -> bool {
        self.synth_active
    }

    /// The remembered pitch marks, oldest first.
    pub closed spec fn marks(&self) -> Seq<u64> {
        Seq::new(
            self.epoch_len as nat,
            |i: int| self.epochs@[(self.epoch_head + MAX_EPOCHS - self.epoch_len + i) % 64],
        )
    }

    /// Longest and shortest period.
    pub closed spec fn longest(&self) -> int {
        self.max_period as int
    }

    pub closed spec fn shortest(&self) -> int {
        self.min_period as int
    }

    /// The period in use.
    pub closed spec fn period_now(&self) -> usize {
        self.period
    }

    pub closed spec fn is_voiced(&self) -> bool {
        self.voiced
    }

    /// Has reading started?
    pub closed spec fn is_primed(&self) -> bool {
        self.primed
    }

    /// Samples that were read before they were finished.
    pub closed spec fn underrun_count(&self) -> int {
        self.underruns as int
    }

    pub closed spec fn ratio_bits(&self) -> Bits {
        self.ratio
    }

    pub closed spec fn formant_bits(&self) -> Bits {
        self.formant
    }

    /// What holds of every scheduler between calls. In particular, once reading
    /// has started it stays exactly the fixed delay behind the input.
    pub closed spec fn wf(&self) -> bool {
        &&& 2 <= self.min_period
        &&& 1 <= self.period <= self.max_period
        &&& self.min_period <= self.max_period ==> self.min_period <= self.period
        &&& self.voiced ==> self.min_period <= self.max_period
        &&& sizes::rounded_up(4 * self.max_period + RING_SLACK, self.ring@.len() as int)
        &&& self.ring@.len() <= usize::MAX
        &&& self.delay == 2 * self.max_period
        &&& self.epochs@.len() == MAX_EPOCHS
        &&& self.epoch_head < MAX_EPOCHS
        &&& self.epoch_len <= MAX_EPOCHS
        &&& self.gen_abs <= self.write_abs
        &&& self.out_abs <= self.write_abs
        &&& self.primed ==> self.out_abs == self.write_abs - self.delay
        &&& !self.primed ==> self.out_abs == 0
        &&& self.synth_active ==> self.next_syn_abs == self.gen_abs + self.max_period
        &&& self.epoch_len > 0 ==> self.marks().last() + self.max_period <= self.write_abs
        &&& self.write_abs + 2 * self.max_period <= u64::MAX
        &&& self.underruns <= self.write_abs
    }

    /// A scheduler for periods between `min_period` and `max_period` samples. One
    /// whose shortest period is the longer of the two lets unvoiced input through
    /// and takes no voiced input.
    pub fn new(max_period: usize, min_period: usize) -> (p: Psola)
        requires
            2 <= min_period,
            1 <= max_period,
            4 * max_period + RING_SLACK <= usize::MAX / 2 + 1,
            4 * max_period <= u64::MAX,
        ensures
            p.wf(),
            p.taken() == 0,
            p.finished() == 0,
            p.reading() == 0,
            p.marks().len() == 0,
            !p.synthesizing(),
            !p.is_primed(),
            !p.is_voiced(),
            p.longest() == max_period,
            p.shortest() == min_period,
            p.period_now() == max_period,
            p.ratio_bits() == single::ONE,
            p.formant_bits() == single::ONE,
            p.underrun_count() == 0,
            forall|i: int| 0 <= i < p.history().len() ==> p.history()[i] == single::ZERO,
    {
        let ring_len: usize = sizes::next_power_of_two(4 * max_period + RING_SLACK);
        Psola {
            ring: vec![single::ZERO; ring_len],
            write_abs: 0,
            gen_abs: 0,
            out_abs: 0,
            epochs: vec![0u64; MAX_EPOCHS],
            epoch_head: 0,
            epoch_len: 0,
            next_syn_abs: 0,
            synth_active: false,
            delay: 2 * (max_period as u64),
            max_period,
            min_period,
            period: max_period,
            ratio: single::ONE,
            formant: single::ONE,
            voiced: false,
            primed: false,
            underruns: 0,
        }
    }

    /// The sample in the ring for an absolute position.
    fn sample_at(&self, a: u64) -> (v: Bits)
        requires
            self.ring@.len() > 0,
        ensures
            v == heard(self.ring@, a as int),
    {
        let i: u64 = a % (self.ring.len() as u64);
        self.ring[i as usize]
    }

    /// The place of the highest sample within `radius` of `center`.
    fn find_peak(&self, center: u64, radius: u64) -> (best: u64)
        requires
            self.ring@.len() > 0,
            center + radius < u64::MAX,
        ensures
            best == first_peak(self.ring@, center as int, radius as int),
            center - radius <= best <= center + radius,
    {
        let lo: u64 = if center >= radius {
            center - radius
        } else {
            0
        };
        let hi: u64 = center + radius;
        let mut best: u64 = center;
        let mut best_val: Bits = NEG_INFINITY;
        let mut a: u64 = lo;
        proof {
            assert(single::magnitude(0x7F80_0000) >= 0);
            assert(!single::nan(NEG_INFINITY));
        }
        while a <= hi
            invariant
                self.ring@.len() > 0,
                lo <= a <= hi + 1,
                hi < u64::MAX,
                !single::nan(NEG_INFINITY),
                lo <= center <= hi,
                (forall|b: int| lo <= b < a ==> !#[trigger] peakable(self.ring@, b)) ==> best
                    == center && best_val == NEG_INFINITY,
                (exists|b: int| lo <= b < a && #[trigger] peakable(self.ring@, b)) ==> {
                    &&& lo <= best < a
                    &&& peakable(self.ring@, best as int)
                    &&& best_val == heard(self.ring@, best as int)
                    &&& forall|b: int|
                        lo <= b < a && #[trigger] peakable(self.ring@, b) ==> single::value(
                            heard(self.ring@, b),
                        ) <= single::value(best_val)
                    &&& forall|b: int|
                        lo <= b < best && #[trigger] peakable(self.ring@, b) ==> single::value(
                            heard(self.ring@, b),
                        ) < single::value(best_val)
                },
            decreases hi + 1 - a,
        {
            let v: Bits = self.sample_at(a);
            assert(peakable(self.ring@, a as int) == single::less(NEG_INFINITY, v));
            if single::lt(best_val, v) {
                best_val = v;
                best = a;
                assert(peakable(self.ring@, a as int));
            }
            a = a + 1;
        }
        proof {
            let r = first_peak(self.ring@, center as int, radius as int);
            assert(peak_near(self.ring@, center as int, radius as int, best as int));
            lemma_peak_unique(self.ring@, lo as int, hi as int, center as int, best as int, r);
        }
        best
    }

    /// Remembers one more pitch mark.
    fn push_epoch(&mut self, e: u64)
        requires
            old(self).epochs@.len() == MAX_EPOCHS,
            old(self).epoch_head < MAX_EPOCHS,
            old(self).epoch_len <= MAX_EPOCHS,
        ensures
            final(self).marks() == remembered(old(self).marks(), e),
            final(self).marks().last() == e,
            final(self).epochs@.len() == MAX_EPOCHS,
            final(self).epoch_head < MAX_EPOCHS,
            1 <= final(self).epoch_len <= MAX_EPOCHS,
            *final(self) == (Psola {
                epochs: final(self).epochs,
                epoch_head: final(self).epoch_head,
                epoch_len: final(self).epoch_len,
                ..*old(self)
            }),
    {
        self.epochs[self.epoch_head] = e;
        self.epoch_head = (self.epoch_head + 1) % MAX_EPOCHS;
        if self.epoch_len < MAX_EPOCHS {
            self.epoch_len = self.epoch_len + 1;
        }
        assert(self.marks() =~= remembered(old(self).marks(), e));
    }

    /// Finds the pitch marks up to the end of the input.
    fn detect_epochs(&mut self)
        requires
            old(self).wf_but_reading(),
            old(self).epoch_len > 0 ==> old(self).marks().last() + old(self).max_period
                <= old(self).write_abs,
        ensures
            final(self).wf_but_reading(),
            final(self).marks() == marks_after(
                old(self).ring@,
                old(self).marks(),
                old(self).period as int,
                old(self).max_period as int,
                old(self).write_abs as int,
            ),
            final(self).epoch_len > 0 ==> final(self).marks().last() + final(self).max_period
                <= final(self).write_abs,
            *final(self) == (Psola {
                epochs: final(self).epochs,
                epoch_head: final(self).epoch_head,
                epoch_len: final(self).epoch_len,
                ..*old(self)
            }),
    {
        let t: u64 = self.period as u64;
        let search: u64 = if self.period / 4 >= 1 {
            (self.period / 4) as u64
        } else {
            1
        };
        let guard: u64 = self.max_period as u64;
        let ghost goal = marks_after(
            self.ring@,
            self.marks(),
            t as int,
            guard as int,
            self.write_abs as int,
        );
        if self.epoch_len == 0 {
            assert(self.marks().len() == 0);
            if self.write_abs < guard + t + search + 1 {
                return;
            }
            let seed: u64 = self.write_abs - guard - t;
            let e: u64 = self.find_peak(seed, search);
            self.push_epoch(e);
            assert(self.marks() =~= seq![e]);
        }
        loop
            invariant
                self.wf_but_reading(),
                self.epoch_len > 0,
                self.marks().last() + self.max_period <= self.write_abs,
                t == self.period,
                search == search_radius(t as int),
                guard == self.max_period,
                goal == followed(
                    self.ring@,
                    self.marks(),
                    t as int,
                    guard as int,
                    self.write_abs as int,
                ),
                *self == (Psola {
                    epochs: self.epochs,
                    epoch_head: self.epoch_head,
                    epoch_len: self.epoch_len,
                    ..*old(self)
                }),
            ensures
                self.marks() == goal,
            decreases self.write_abs - self.marks().last(),
        {
            let newest: usize = (self.epoch_head + MAX_EPOCHS - 1) % MAX_EPOCHS;
            let last: u64 = self.epochs[newest];
            assert(last == self.marks().last());
            let predicted: u64 = last + t;
            if predicted + search + guard > self.write_abs {
                break;
            }
            let e: u64 = self.find_peak(predicted, search);
            if e <= last {
                self.push_epoch(last + t);
            } else {
                self.push_epoch(e);
            }
        }
    }

    /// The mark nearest to `p`, if there is any.
    fn nearest_epoch(&self, p: u64) -> (r: Option<u64>)
        requires
            self.epochs@.len() == MAX_EPOCHS,
            self.epoch_head < MAX_EPOCHS,
            self.epoch_len <= MAX_EPOCHS,
        ensures
            r is None <==> self.marks().len() == 0,
            r matches Some(e) ==> e == nearest_mark(self.marks(), p as int),
    {
        if self.epoch_len == 0 {
            return None;
        }
        let newest: usize = (self.epoch_head + MAX_EPOCHS - 1) % MAX_EPOCHS;
        let mut best: u64 = self.epochs[newest];
        let mut best_d: u64 = if best < p {
            p - best
        } else {
            best - p
        };
        let mut k: usize = 1;
        let ghost n = self.epoch_len as int;
        let ghost mut at: int = n - 1;
        let ghost marks = self.marks();
        assert(marks[n - 1] == best);
        while k < self.epoch_len
            invariant
                self.epochs@.len() == MAX_EPOCHS,
                self.epoch_head < MAX_EPOCHS,
                1 <= k <= self.epoch_len <= MAX_EPOCHS,
                n == self.epoch_len,
                marks == self.marks(),
                marks.len() == n,
                n - k <= at < n,
                best == marks[at],
                best_d == apart(best as int, p as int),
                forall|j: int|
                    n - k <= j < n ==> best_d <= apart(#[trigger] marks[j] as int, p as int),
                forall|j: int|
                    at < j < n ==> best_d < apart(#[trigger] marks[j] as int, p as int),
            decreases self.epoch_len - k,
        {
            let i: usize = (self.epoch_head + MAX_EPOCHS - 1 - k) % MAX_EPOCHS;
            let e: u64 = self.epochs[i];
            assert(e == marks[n - 1 - k]);
            let d: u64 = if e < p {
                p - e
            } else {
                e - p
            };
            if d < best_d {
                best_d = d;
                best = e;
                proof {
                    at = n - 1 - k;
                }
            }
            k = k + 1;
        }
        proof {
            assert(nearest_at(marks, p as int, at));
            let c = choose|i: int| nearest_at(marks, p as int, i);
            assert(nearest_at(marks, p as int, c));
            assert(marks[c] == marks[at]);
        }
        Some(best)
    }

    /// What holds in the middle of a block, before the reading position has moved.
    spec fn wf_but_reading(&self) -> bool {
        &&& 2 <= self.min_period
        &&& 1 <= self.period <= self.max_period
        &&& self.min_period <= self.max_period ==> self.min_period <= self.period
        &&& self.voiced ==> self.min_period <= self.max_period
        &&& 4 * self.max_period + RING_SLACK <= self.ring@.len() <= usize::MAX
        &&& self.epochs@.len() == MAX_EPOCHS
        &&& self.epoch_head < MAX_EPOCHS
        &&& self.epoch_len <= MAX_EPOCHS
        &&& self.gen_abs <= self.write_abs
        &&& self.out_abs <= self.write_abs
        &&& self.synth_active ==> self.next_syn_abs == self.gen_abs + self.max_period
        &&& self.write_abs + 2 * self.max_period <= u64::MAX
    }

    /// Places the output marks and lists the grains that go there.
    fn synthesize(&mut self, t_out: u64, grains: &mut Vec<Grain>)
        requires
            old(self).wf_but_reading(),
            old(self).min_period <= t_out <= old(self).max_period,
            old(grains)@.len() == 0,
        ensures
            final(self).wf_but_reading(),
            final(self).synth_active,
            final(grains)@ == grains_from(
                old(self).marks(),
                old(self).first_output_mark(),
                old(self).period,
                t_out as int,
                old(self).max_period as int,
                old(self).write_abs as int,
            ),
            final(self).next_syn_abs == next_after(
                old(self).marks(),
                old(self).first_output_mark(),
                t_out as int,
                old(self).max_period as int,
                old(self).write_abs as int,
            ),
            final(self).gen_abs == final(self).next_syn_abs - final(self).max_period,
            final(self).gen_abs >= old(self).gen_abs,
            old(self).epoch_len > 0 ==> final(self).next_syn_abs + final(self).max_period
                > final(self).write_abs,
            *final(self) == (Psola {
                next_syn_abs: final(self).next_syn_abs,
                synth_active: true,
                gen_abs: final(self).gen_abs,
                ..*old(self)
            }),
    {
        let guard: u64 = self.max_period as u64;
        let t_in: usize = self.period;
        let ghost first = self.first_output_mark();
        let ghost marks = self.marks();
        if !self.synth_active {
            let from: u64 = if self.gen_abs < self.out_abs {
                self.out_abs
            } else {
                self.gen_abs
            };
            self.next_syn_abs = from + guard;
            self.synth_active = true;
        }
        let ghost all = grains_from(
            marks,
            first,
            t_in,
            t_out as int,
            guard as int,
            self.write_abs as int,
        );
        let ghost stop = next_after(
            marks,
            first,
            t_out as int,
            guard as int,
            self.write_abs as int,
        );
        assert(all =~= Seq::<Grain>::empty() + all);
        while self.next_syn_abs + guard <= self.write_abs && self.epoch_len > 0
            invariant
                2 <= self.min_period <= t_out <= self.max_period,
                guard == self.max_period,
                t_in == self.period,
                self.epochs@.len() == MAX_EPOCHS,
                self.epoch_head < MAX_EPOCHS,
                self.epoch_len <= MAX_EPOCHS,
                marks == self.marks(),
                marks.len() == self.epoch_len,
                self.next_syn_abs >= first,
                self.next_syn_abs <= self.write_abs + guard,
                self.write_abs + 2 * self.max_period <= u64::MAX,
                all == grains@ + grains_from(
                    marks,
                    self.next_syn_abs as int,
                    t_in,
                    t_out as int,
                    guard as int,
                    self.write_abs as int,
                ),
                stop == next_after(
                    marks,
                    self.next_syn_abs as int,
                    t_out as int,
                    guard as int,
                    self.write_abs as int,
                ),
                *self == (Psola {
                    next_syn_abs: self.next_syn_abs,
                    synth_active: true,
                    ..*old(self)
                }),
            decreases self.write_abs + guard - self.next_syn_abs,
        {
            let src: u64 = match self.nearest_epoch(self.next_syn_abs) {
                Some(e) => e,
                None => 0,
            };
            let ghost before = grains@;
            let ghost here = self.next_syn_abs as int;
            grains.push(Grain { src, dst: self.next_syn_abs, t: t_in });
            self.next_syn_abs = self.next_syn_abs + t_out;
            assert(grains@ == before + seq![Grain { src, dst: here as u64, t: t_in }]);
            assert(before + (seq![Grain { src, dst: here as u64, t: t_in }] + grains_from(
                marks,
                here + t_out,
                t_in,
                t_out as int,
                guard as int,
                self.write_abs as int,
            )) =~= grains@ + grains_from(
                marks,
                here + t_out,
                t_in,
                t_out as int,
                guard as int,
                self.write_abs as int,
            ));
        }
        assert(grains@ + Seq::<Grain>::empty() =~= grains@);
        let done: u64 = self.next_syn_abs - guard;
        if done > self.gen_abs {
            self.gen_abs = done;
        }
    }

    /// Where output marks go on: one longest period after what is finished, or
    /// at the next mark of a stretch that is being synthesized.
    pub closed spec fn first_output_mark(&self) -> int {
        if self.synth_active {
            self.next_syn_abs as int
        } else if self.gen_abs < self.out_abs {
            self.out_abs + self.max_period
        } else {
            self.gen_abs + self.max_period
        }
    }

    /// Takes a block into the history.
    fn write(&mut self, input: &[Bits])
        requires
            old(self).ring@.len() > 0,
            old(self).write_abs + input@.len() <= u64::MAX,
        ensures
            final(self).ring@ == written(old(self).ring@, old(self).write_abs as int, input@),
            final(self).ring@.len() == old(self).ring@.len(),
            final(self).write_abs == old(self).write_abs + input@.len(),
            *final(self) == (Psola {
                ring: final(self).ring,
                write_abs: final(self).write_abs,
                ..*old(self)
            }),
    {
        let mut i: usize = 0;
        let from: u64 = self.write_abs;
        assert(input@.take(0) =~= Seq::<Bits>::empty());
        while i < input.len()
            invariant
                i <= input@.len(),
                from == old(self).write_abs,
                from + input@.len() <= u64::MAX,
                self.ring@.len() == old(self).ring@.len(),
                self.ring@.len() > 0,
                self.ring@ == written(old(self).ring@, from as int, input@.take(i as int)),
                *self == (Psola { ring: self.ring, ..*old(self) }),
            decreases input@.len() - i,
        {
            let a: u64 = from + i as u64;
            let at: u64 = a % (self.ring.len() as u64);
            self.ring[at as usize] = input[i];
            i = i + 1;
            assert(input@.take(i as int).drop_last() =~= input@.take(i - 1));
        }
        assert(input@.take(i as int) =~= input@);
        self.write_abs = from + input.len() as u64;
    }

    /// Takes one block in. `t_out` is the output period that the caller has
    /// worked out; it is held between the shortest and the longest period. The
    /// grains to add come in `grains`; the returned step says what to copy
    /// through and what to read.
    pub fn process(&mut self, input: &[Bits], t_out: usize, grains: &mut Vec<Grain>) -> (step: Step)
        requires
            old(self).wf(),
            old(self).taken() + input@.len() + 2 * old(self).longest() <= u64::MAX,
        ensures
            final(self).wf(),
            final(self).history() == written(old(self).history(), old(self).taken(), input@),
            final(self).taken() == old(self).taken() + input@.len(),
            final(self).longest() == old(self).longest(),
            final(self).shortest() == old(self).shortest(),
            final(self).period_now() == old(self).period_now(),
            final(self).is_voiced() == old(self).is_voiced(),
            final(self).ratio_bits() == old(self).ratio_bits(),
            final(self).formant_bits() == old(self).formant_bits(),
            step.floor == old(self).reading(),
            old(self).is_voiced() ==> {
                let t = held(t_out as int, old(self).shortest(), old(self).longest());
                let marks = marks_after(
                    final(self).history(),
                    old(self).marks(),
                    old(self).period_now() as int,
                    old(self).longest(),
                    final(self).taken(),
                );
                &&& final(self).marks() == marks
                &&& final(grains)@ == grains_from(
                    marks,
                    old(self).first_output_mark(),
                    old(self).period_now(),
                    t,
                    old(self).longest(),
                    final(self).taken(),
                )
                &&& final(self).synthesizing()
                &&& final(self).next_mark() == next_after(
                    marks,
                    old(self).first_output_mark(),
                    t,
                    old(self).longest(),
                    final(self).taken(),
                )
                &&& final(self).finished() == final(self).next_mark() - old(self).longest()
                &&& step.through_from == step.through_to == 0
            },
            // Every grain is cut from the pulse nearest to its place.
            forall|i: int, m: int|
                0 <= i < final(grains)@.len() && 0 <= m < final(self).marks().len()
                    ==> vstd::math::abs((#[trigger] final(grains)@[i]).src - final(grains)@[i].dst)
                    <= vstd::math::abs(#[trigger] final(self).marks()[m] - final(grains)@[i].dst),
            forall|i: int|
                0 <= i < final(grains)@.len() ==> final(self).marks().contains(
                    (#[trigger] final(grains)@[i]).src,
                ),
            !old(self).is_voiced() ==> {
                &&& final(self).marks() == old(self).marks()
                &&& final(grains)@.len() == 0
                &&& !final(self).synthesizing()
                &&& copies_through(old(self), final(self), step)
            },
            reads(old(self), final(self), input@.len() as int, step),
            // In steady state nothing is read before it is finished.
            !old(self).is_voiced() || final(self).taken() >= old(self).longest()
                + old(self).period_now() + search_radius(old(self).period_now() as int) + 1
                ==> final(self).underrun_count() == old(self).underrun_count(),
    {
        let n: u64 = input.len() as u64;
        let floor: u64 = self.out_abs;
        self.write(input);
        assert(self.marks() =~= old(self).marks());
        grains.clear();
        let mut through_from: u64 = 0;
        let mut through_to: u64 = 0;
        if self.voiced {
            self.detect_epochs();
            let t: usize = held_usize(t_out, self.min_period, self.max_period);
            let ghost before = *self;
            self.synthesize(t as u64, grains);
            assert(self.marks() =~= before.marks());
            proof {
                let first = before.first_output_mark();
                assert forall|i: int| 0 <= i < grains@.len() implies ({
                    let g = #[trigger] grains@[i];
                    &&& self.marks().contains(g.src)
                    &&& forall|m: int|
                        0 <= m < self.marks().len() ==> vstd::math::abs(g.src - g.dst)
                            <= vstd::math::abs(#[trigger] self.marks()[m] - g.dst)
                }) by {
                    every_grain_is_cut_at_the_nearest_mark(
                        self.marks(),
                        first,
                        self.period,
                        t as int,
                        self.max_period as int,
                        self.write_abs as int,
                        i,
                    );
                }
                if self.write_abs >= self.max_period + self.period + search_radius(
                    self.period as int,
                ) + 1 {
                    steady_state_keeps_up(
                        self.ring@,
                        old(self).marks(),
                        self.period as int,
                        self.max_period as int,
                        old(self).first_output_mark(),
                        t as int,
                        self.write_abs as int,
                        n as int,
                    );
                }
            }
        } else {
            self.synth_active = false;
            through_from = self.gen_abs;
            through_to = self.write_abs;
            self.gen_abs = self.write_abs;
            assert(self.marks() =~= old(self).marks());
        }
        let ghost mid = *self;
        let mut clear_to: u64 = 0;
        if !self.primed {
            let is_ready: bool = self.gen_abs + self.delay >= self.write_abs;
            if is_ready && self.write_abs >= self.delay && self.write_abs - self.delay >= n {
                self.primed = true;
                self.out_abs = self.write_abs - self.delay - n;
                clear_to = self.out_abs;
            } else {
                return Step {
                    floor,
                    through_from,
                    through_to,
                    clear_to: 0,
                    silent: true,
                    read_from: 0,
                    ready: 0,
                };
            }
        }
        let read_from: u64 = self.out_abs;
        let ready: u64 = if self.gen_abs <= read_from {
            0
        } else if self.gen_abs - read_from > n {
            n
        } else {
            self.gen_abs - read_from
        };
        self.underruns = self.underruns + (n - ready);
        self.out_abs = self.out_abs + n;
        assert(self.marks() =~= mid.marks());
        Step {
            floor,
            through_from,
            through_to,
            clear_to,
            silent: false,
            read_from,
            ready: ready as usize,
        }
    }

    /// The fixed delay between input and output, in samples.
    pub fn latency_samples(&self) -> (d: u64)
        requires
            self.wf(),
        ensures
            d == 2 * self.longest(),
    {
        self.delay
    }

    /// The period in use, in samples.
    pub fn period(&self) -> (t: usize)
        ensures
            t == self.period_now(),
    {
        self.period
    }

    /// The ratio of output to input pitch.
    pub fn ratio(&self) -> (r: Bits)
        ensures
            r == self.ratio_bits(),
    {
        self.ratio
    }

    /// The formant shift.
    pub fn formant(&self) -> (r: Bits)
        ensures
            r == self.formant_bits(),
    {
        self.formant
    }

    /// The longest period, in samples.
    pub fn max_period(&self) -> (t: usize)
        ensures
            t == self.longest(),
    {
        self.max_period
    }

    /// Samples that were read before they were finished.
    pub fn underruns(&self) -> (u: u64)
        ensures
            u == self.underrun_count(),
    {
        self.underruns
    }

    /// Length of the input history; the caller's output ring has the same.
    pub fn ring_len(&self) -> (n: usize)
        ensures
            n == self.history().len(),
    {
        self.ring.len()
    }

    /// Takes the pitch of the current frame. `period` is the period of `f0` in
    /// samples; a voiced frame with a positive `f0` sets it, held between the
    /// shortest and the longest. When a voiced stretch ends, its marks go.
    pub fn set_pitch(&mut self, f0: Bits, period: usize, voiced: bool)
        requires
            old(self).wf(),
            voiced ==> old(self).shortest() <= old(self).longest(),
        ensures
            final(self).wf(),
            final(self).is_voiced() == voiced,
            final(self).period_now() == (if voiced && single::less(single::ZERO, f0) {
                held(period as int, old(self).shortest(), old(self).longest())
            } else {
                old(self).period_now() as int
            }),
            old(self).is_voiced() && !voiced ==> final(self).marks().len() == 0
                && !final(self).synthesizing(),
            !(old(self).is_voiced() && !voiced) ==> final(self).marks() == old(self).marks()
                && final(self).synthesizing() == old(self).synthesizing()
                && final(self).next_mark() == old(self).next_mark(),
            final(self).unmoved_from(old(self)),
            final(self).ratio_bits() == old(self).ratio_bits(),
            final(self).formant_bits() == old(self).formant_bits(),
            // A period in range is taken as it is.
            voiced && single::less(single::ZERO, f0) && old(self).shortest() <= period
                <= old(self).longest() ==> final(self).period_now() == period,
    {
        if voiced && single::lt(single::ZERO, f0) {
            self.period = held_usize(period, self.min_period, self.max_period);
        }
        if self.voiced && !voiced {
            self.synth_active = false;
            self.epoch_len = 0;
        }
        self.voiced = voiced;
        assert(!(old(self).voiced && !voiced) ==> self.marks() =~= old(self).marks());
    }

    /// Nothing that fixes the timing differs between the two.
    pub open spec fn unmoved_from(&self, other: &Psola) -> bool {
        &&& self.history() == other.history()
        &&& self.taken() == other.taken()
        &&& self.finished() == other.finished()
        &&& self.reading() == other.reading()
        &&& self.longest() == other.longest()
        &&& self.shortest() == other.shortest()
        &&& self.is_primed() == other.is_primed()
        &&& self.underrun_count() == other.underrun_count()
    }

    /// Sets the ratio of output to input pitch, held within an octave.
    pub fn set_ratio(&mut self, ratio: Bits)
        requires
            old(self).wf(),
        ensures
            final(self).wf(),
            final(self).ratio_bits() == single::clamped(ratio, HALF, TWO),
            final(self).formant_bits() == old(self).formant_bits(),
            final(self).unmoved_from(old(self)),
            final(self).marks() == old(self).marks(),
            final(self).synthesizing() == old(self).synthesizing(),
            final(self).next_mark() == old(self).next_mark(),
            final(self).period_now() == old(self).period_now(),
            final(self).is_voiced() == old(self).is_voiced(),
    {
        self.ratio = single::clamp(ratio, HALF, TWO);
        assert(self.marks() =~= old(self).marks());
    }

    /// Sets the formant shift, held within an octave. The delay stays.
    pub fn set_formant(&mut self, f: Bits)
        requires
            old(self).wf(),
        ensures
            final(self).wf(),
            final(self).formant_bits() == single::clamped(f, HALF, TWO),
            final(self).ratio_bits() == old(self).ratio_bits(),
            final(self).unmoved_from(old(self)),
            final(self).marks() == old(self).marks(),
            final(self).synthesizing() == old(self).synthesizing(),
            final(self).next_mark() == old(self).next_mark(),
            final(self).period_now() == old(self).period_now(),
            final(self).is_voiced() == old(self).is_voiced(),
    {
        self.formant = single::clamp(f, HALF, TWO);
        assert(self.marks() =~= old(self).marks());
    }

    /// The slot of the output ring for an absolute position.
    pub fn slot(&self, a: u64) -> (i: usize)
        requires
            self.wf(),
        ensures
            i == a as int % (self.history().len() as int),
            i < self.history().len(),
    {
        (a % (self.ring.len() as u64)) as usize
    }

    /// The input sample `offset` away from `at`. Positions before the start
    /// wrap round to the far end of the ring.
    pub fn tap(&self, at: u64, offset: i64) -> (v: Bits)
        requires
            self.wf(),
            at + offset <= u64::MAX,
        ensures
            v == heard(self.history(), at + offset),
    {
        let len: u64 = self.ring.len() as u64;
        if offset >= 0 {
            self.sample_at(at + offset as u64)
        } else {
            let back: u64 = (-(offset + 1)) as u64 + 1;
            if at >= back {
                self.sample_at(at - back)
            } else {
                let short: u64 = (back - at - 1) % len;
                let i: u64 = len - 1 - short;
                proof {
                    let l = len as int;
                    let a = back - at - 1;
                    assert(i as int == (-1 - a) % l) by {
                        let q = a / l;
                        assert(a == q * l + short) by {
                            vstd::arithmetic::div_mod::lemma_fundamental_div_mod(a, l);
                            assert(q * l == l * q) by (nonlinear_arith);
                        }
                        assert(-1 - a == (-q - 1) * l + i) by (nonlinear_arith)
                            requires
                                a == q * l + short,
                                i == l - 1 - short,
                        ;
                        vstd::arithmetic::div_mod::lemma_fundamental_div_mod_converse(
                            -1 - a,
                            l,
                            -q - 1,
                            i as int,
                        );
                    }
                    assert(at + offset == -1 - a);
                }
                self.ring[i as usize]
            }
        }
    }
}

/// All input that was not finished yet is copied to the output and finished with it.
pub open spec fn copies_through(before: &Psola, after: &Psola, step: Step) -> bool {
    &&& after.finished() == after.taken()
    &&& step.through_from == before.finished()
    &&& step.through_to == after.taken()
}

/// What a block of `n` samples reads. Reading starts with the first block that finds
/// itself finished the fixed delay behind the input, and goes on from there.
pub open spec fn reads(before: &Psola, after: &Psola, n: int, step: Step) -> bool {
    &&& after.is_primed() == (before.is_primed() || (after.finished() + 2 * before.longest()
        >= after.taken() && after.taken() >= 2 * before.longest() + n))
    &&& step.silent == !after.is_primed()
    &&& after.is_primed() ==> {
        &&& after.reading() == after.taken() - 2 * before.longest()
        &&& step.read_from == after.reading() - n
        &&& step.clear_to == (if before.is_primed() {
            0
        } else {
            step.read_from
        })
        &&& step.ready == held(after.finished() - step.read_from, 0, n)
        &&& after.underrun_count() == before.underrun_count() + n - step.ready
    }
    &&& !after.is_primed() ==> {
        &&& after.reading() == 0
        &&& step.read_from == 0 && step.clear_to == 0 && step.ready == 0
        &&& after.underrun_count() == before.underrun_count()
    }
}

/// Where sample `i` of a grain of half-length `t` falls in the window table.
pub fn window_index(i: usize, t: usize) -> (w: usize)
    requires
        i < 2 * t,
        2 * t * (WINDOW_TABLE - 1) <= usize::MAX,
    ensures
        w == i * (WINDOW_TABLE - 1) / (2 * t),
        w < WINDOW_TABLE,
{
    assert(0 <= i * 2047 <= 2 * t * 2047 && i * 2047 / (2 * t as int) < 2048) by (nonlinear_arith)
        requires
            0 <= i < 2 * t,
            t > 0,
    ;
    i * (WINDOW_TABLE - 1) / (2 * t)
}

/// Where sample `i` of a grain goes in the output, unless that position was
/// read already.
pub fn grain_target(g: &Grain, i: usize, floor: u64) -> (r: Option<u64>)
    requires
        i < 2 * g.t,
        g.t <= g.dst,
        g.dst + g.t <= u64::MAX,
    ensures
        r == (if g.dst + i - g.t < floor {
            None::<u64>
        } else {
            Some((g.dst + i - g.t) as u64)
        }),
{
    let d: u64 = g.dst - g.t as u64 + i as u64;
    if d < floor {
        None
    } else {
        Some(d)
    }
}

/// The ring gives back what was written, as long as no more than a ring's
/// length has been written since.
pub proof fn recent_input_is_kept(ring: Seq<Bits>, from: int, input: Seq<Bits>, i: int)
    requires
        0 <= i < input.len(),
        input.len() - i <= ring.len(),
        0 <= from,
    ensures
        heard(written(ring, from, input), from + i) == input[i],
    decreases input.len(),
{
    lemma_written_len(ring, from, input);
    lemma_written_len(ring, from, input.drop_last());
    let len = ring.len() as int;
    let newest = from + input.len() - 1;
    if i < input.len() - 1 {
        recent_input_is_kept(ring, from, input.drop_last(), i);
        assert((from + i) % len != newest % len) by {
            if (from + i) % len == newest % len {
                let d = newest - (from + i);
                vstd::arithmetic::div_mod::lemma_mod_equivalence(newest, from + i, len);
                assert(d % len == 0);
                vstd::arithmetic::div_mod::lemma_small_mod(d as nat, len as nat);
            }
        }
    }
}

proof fn lemma_written_len(ring: Seq<Bits>, from: int, input: Seq<Bits>)
    requires
        ring.len() > 0,
    ensures
        written(ring, from, input).len() == ring.len(),
    decreases input.len(),
{
    if input.len() > 0 {
        lemma_written_len(ring, from, input.drop_last());
    }
}

/// There is always a highest sample.
proof fn lemma_peak_exists(ring: Seq<Bits>, lo: int, hi: int, center: int) -> (r: int)
    requires
        lo <= center <= hi,
    ensures
        peak_at(ring, lo, hi, center, r),
    decreases hi - lo,
{
    if !(exists|a: int| lo <= a <= hi && #[trigger] peakable(ring, a)) {
        center
    } else if lo == hi {
        assert(peakable(ring, lo));
        lo
    } else {
        let last = hi - 1;
        let c = if center <= last {
            center
        } else {
            last
        };
        let p = lemma_peak_exists(ring, lo, last, c);
        if exists|a: int| lo <= a <= last && #[trigger] peakable(ring, a) {
            assert(peakable(ring, p));
            if peakable(ring, hi) && single::value(heard(ring, p)) < single::value(
                heard(ring, hi),
            ) {
                hi
            } else {
                p
            }
        } else {
            assert(peakable(ring, hi));
            hi
        }
    }
}

/// A pitch mark follows the last one after one period, give or take a quarter
/// period; in particular it always lies later.
pub proof fn marks_advance_by_about_a_period(ring: Seq<Bits>, last: int, period: int)
    requires
        2 <= period,
        0 <= last,
    ensures
        last < following_mark(ring, last, period),
        last + period - search_radius(period) <= following_mark(ring, last, period) <= last
            + period + search_radius(period),
{
    let center = last + period;
    let radius = search_radius(period);
    let r = lemma_peak_exists(ring, center - radius, center + radius, center);
    assert(peak_near(ring, center, radius, r));
}

/// Every mark that is followed to lies after the ones before it.
pub proof fn marks_stay_in_order(
    ring: Seq<Bits>,
    marks: Seq<u64>,
    period: int,
    guard: int,
    end: int,
)
    requires
        2 <= period,
        0 <= guard,
        marks.len() > 0,
        forall|i: int, j: int| 0 <= i < j < marks.len() ==> marks[i] < marks[j],
    ensures
        followed(ring, marks, period, guard, end).len() > 0,
        forall|i: int, j: int|
            0 <= i < j < followed(ring, marks, period, guard, end).len() ==> #[trigger] followed(
                ring,
                marks,
                period,
                guard,
                end,
            )[i] < #[trigger] followed(ring, marks, period, guard, end)[j],
    decreases end - marks.last(),
{
    let last = marks.last() as int;
    if last + period + search_radius(period) + guard <= end {
        let e = following_mark(ring, last, period);
        if last < e <= end && end <= u64::MAX {
            let more = remembered(marks, e as u64);
            assert(more.last() == e);
            assert forall|i: int, j: int| 0 <= i < j < more.len() implies more[i] < more[j] by {
                let shift = more.len() - marks.len() - 1;
                assert(more[i] == marks[i - shift]);
                if j < more.len() - 1 {
                    assert(more[j] == marks[j - shift]);
                } else {
                    assert(marks[i - shift] <= marks.last());
                }
            }
            marks_stay_in_order(ring, more, period, guard, end);
        }
    }
}

proof fn lemma_followed_nonempty(
    ring: Seq<Bits>,
    marks: Seq<u64>,
    period: int,
    guard: int,
    end: int,
)
    requires
        1 <= period,
        marks.len() > 0,
    ensures
        followed(ring, marks, period, guard, end).len() > 0,
    decreases end - marks.last(),
{
    let last = marks.last() as int;
    if last + period + search_radius(period) + guard <= end {
        let e = following_mark(ring, last, period);
        if last < e <= end && end <= u64::MAX {
            assert(remembered(marks, e as u64).last() == e);
            lemma_followed_nonempty(ring, remembered(marks, e as u64), period, guard, end);
        }
    }
}

/// Output marks lie exactly one output period apart, whatever the grains hold:
/// their spacing alone sets the output pitch.
pub proof fn output_marks_are_evenly_spaced(
    marks: Seq<u64>,
    next: int,
    t: usize,
    t_out: int,
    guard: int,
    end: int,
    i: int,
)
    requires
        1 <= t_out,
        0 <= guard,
        0 <= next,
        end <= u64::MAX,
        0 <= i < grains_from(marks, next, t, t_out, guard, end).len(),
    ensures
        grains_from(marks, next, t, t_out, guard, end)[i].dst == next + i * t_out,
        grains_from(marks, next, t, t_out, guard, end)[i].dst + guard <= end,
        grains_from(marks, next, t, t_out, guard, end)[i].t == t,
    decreases i,
{
    if i > 0 {
        output_marks_are_evenly_spaced(marks, next + t_out, t, t_out, guard, end, i - 1);
        assert(next + t_out + (i - 1) * t_out == next + i * t_out) by (nonlinear_arith);
    }
}

proof fn lemma_next_after_passes_the_end(
    marks: Seq<u64>,
    next: int,
    t_out: int,
    guard: int,
    end: int,
)
    requires
        1 <= t_out,
        0 <= guard,
        marks.len() > 0,
    ensures
        next_after(marks, next, t_out, guard, end) + guard > end,
    decreases end + t_out - next,
{
    if next + guard <= end {
        lemma_next_after_passes_the_end(marks, next + t_out, t_out, guard, end);
    }
}

/// In steady state the synthesis keeps up: once the input is long enough for a
/// first pitch mark, a voiced block that reads its `n` samples the fixed delay
/// behind the input finds all of them finished.
pub proof fn steady_state_keeps_up(
    ring: Seq<Bits>,
    marks: Seq<u64>,
    period: int,
    guard: int,
    first: int,
    t_out: int,
    end: int,
    n: int,
)
    requires
        1 <= period,
        1 <= t_out,
        0 <= guard,
        0 <= n,
        end >= guard + period + search_radius(period) + 1,
    ensures
        held(
            next_after(marks_after(ring, marks, period, guard, end), first, t_out, guard, end)
                - guard - (end - 2 * guard - n),
            0,
            n,
        ) == n,
{
    let m = marks_after(ring, marks, period, guard, end);
    if marks.len() > 0 {
        lemma_followed_nonempty(ring, marks, period, guard, end);
    } else {
        lemma_followed_nonempty(
            ring,
            seq![first_peak(ring, end - guard - period, search_radius(period)) as u64],
            period,
            guard,
            end,
        );
    }
    lemma_next_after_passes_the_end(m, first, t_out, guard, end);
}

/// The longest period is at least one sample.
pub proof fn the_longest_period_is_positive(p: Psola)
    requires
        p.wf(),
    ensures
        1 <= p.longest(),
{
}

/// Once reading has started, it stays exactly two of the longest periods
/// behind the input.
pub proof fn reading_stays_the_fixed_delay_behind(p: Psola)
    requires
        p.wf(),
        p.is_primed(),
    ensures
        p.reading() == p.taken() - 2 * p.longest(),
{
}

/// One unvoiced block on its way through: the scheduler before and after it, the block,
/// and what the caller was told to do.
pub struct Pass {
    pub before: Psola,
    pub after: Psola,
    pub input: Seq<Bits>,
    pub step: Step,
}

/// The output ring after the input at `from..to` has been added to it. A place of the
/// output ring is what has been added there since it was last set to zero.
pub open spec fn copied(out: Seq<Seq<Bits>>, ring: Seq<Bits>, from: int, to: int) -> Seq<Seq<Bits>>
    decreases to - from,
{
    if to <= from {
        out
    } else {
        let o = copied(out, ring, from, to - 1);
        let i = (to - 1) % (out.len() as int);
        o.update(i, o[i].push(heard(ring, to - 1)))
    }
}

/// The output ring after the positions `from..to` have been set to zero.
pub open spec fn cleared(out: Seq<Seq<Bits>>, from: int, to: int) -> Seq<Seq<Bits>>
    decreases to - from,
{
    if to <= from {
        out
    } else {
        cleared(out, from, to - 1).update((to - 1) % (out.len() as int), Seq::empty())
    }
}

/// The output ring of an unvoiced block just before the block is read.
pub open spec fn ready_to_read(out: Seq<Seq<Bits>>, pass: Pass) -> Seq<Seq<Bits>> {
    cleared(
        copied(
            out,
            pass.after.history(),
            pass.step.through_from as int,
            pass.step.through_to as int,
        ),
        0,
        pass.step.clear_to as int,
    )
}

/// The output ring after an unvoiced block: what was read is set to zero.
pub open spec fn out_after(out: Seq<Seq<Bits>>, pass: Pass) -> Seq<Seq<Bits>> {
    if pass.step.silent {
        ready_to_read(out, pass)
    } else {
        cleared(
            ready_to_read(out, pass),
            pass.step.read_from as int,
            pass.step.read_from + pass.input.len(),
        )
    }
}

/// Sample `j` of the output block: what was added at its position, or nothing, which is
/// zero.
pub open spec fn comes_out(out: Seq<Seq<Bits>>, pass: Pass, j: int) -> Seq<Bits> {
    if pass.step.silent || j >= pass.step.ready {
        Seq::empty()
    } else {
        ready_to_read(out, pass)[(pass.step.read_from + j) % (out.len() as int)]
    }
}

/// The output ring after a run of unvoiced blocks, from a ring of `len` zeroes on.
pub open spec fn out_ring(passes: Seq<Pass>, len: nat) -> Seq<Seq<Bits>>
    decreases passes.len(),
{
    if passes.len() == 0 {
        Seq::new(len, |i: int| Seq::empty())
    } else {
        out_after(out_ring(passes.drop_last(), len), passes.last())
    }
}

/// All input of a run.
pub open spec fn all_input(passes: Seq<Pass>) -> Seq<Bits>
    decreases passes.len(),
{
    if passes.len() == 0 {
        Seq::empty()
    } else {
        all_input(passes.drop_last()) + passes.last().input
    }
}

/// A block goes through without voice, as [`Psola::process`] has it.
pub open spec fn goes_through(pass: Pass) -> bool {
    &&& pass.before.wf()
    &&& pass.after.wf()
    &&& pass.after.history() == written(pass.before.history(), pass.before.taken(), pass.input)
    &&& pass.after.taken() == pass.before.taken() + pass.input.len()
    &&& pass.after.longest() == pass.before.longest()
    &&& copies_through(&pass.before, &pass.after, pass.step)
    &&& reads(&pass.before, &pass.after, pass.input.len() as int, pass.step)
}

/// The output that has not been read yet fits into the output ring, and the block with
/// it.
pub open spec fn fits(pass: Pass) -> bool {
    pass.after.taken() <= pass.before.reading() + pass.before.history().len()
}

/// Blocks go through one after the other without voice, from a new scheduler on whose
/// history and output rings hold `len` samples. Nothing that fixes the timing changes
/// between them.
pub open spec fn unvoiced_run(passes: Seq<Pass>, start: Psola, len: nat) -> bool {
    &&& start.wf()
    &&& start.history().len() == len
    &&& start.taken() == 0
    &&& start.finished() == 0
    &&& !start.is_primed()
    &&& start.underrun_count() == 0
    &&& forall|k: int| 0 <= k < passes.len() ==> #[trigger] goes_through(passes[k])
    &&& forall|k: int|
        0 <= k < passes.len() ==> (#[trigger] passes[k]).before.unmoved_from(
            &before_pass(passes, start, k),
        )
}

/// The scheduler as block `k` of a run finds it.
pub open spec fn before_pass(passes: Seq<Pass>, start: Psola, k: int) -> Psola {
    if k == 0 {
        start
    } else {
        passes[k - 1].after
    }
}

proof fn lemma_distinct_slots(a: int, b: int, len: int)
    requires
        a < b < a + len,
    ensures
        a % len != b % len,
{
    if a % len == b % len {
        vstd::arithmetic::div_mod::lemma_mod_equivalence(b, a, len);
        assert((b - a) % len == 0);
        vstd::arithmetic::div_mod::lemma_small_mod((b - a) as nat, len as nat);
    }
}

proof fn lemma_older_input_is_kept(ring: Seq<Bits>, from: int, input: Seq<Bits>, a: int)
    requires
        ring.len() > 0,
        from + input.len() - ring.len() <= a < from,
    ensures
        heard(written(ring, from, input), a) == heard(ring, a),
    decreases input.len(),
{
    lemma_written_len(ring, from, input);
    if input.len() > 0 {
        lemma_written_len(ring, from, input.drop_last());
        lemma_older_input_is_kept(ring, from, input.drop_last(), a);
        lemma_distinct_slots(a, from + input.len() - 1, ring.len() as int);
    }
}

proof fn lemma_copied(out: Seq<Seq<Bits>>, ring: Seq<Bits>, from: int, to: int, a: int)
    requires
        0 < out.len(),
        from <= to <= from + out.len(),
        from <= a < from + out.len(),
    ensures
        copied(out, ring, from, to).len() == out.len(),
        copied(out, ring, from, to)[a % (out.len() as int)] == (if a < to {
            out[a % (out.len() as int)].push(heard(ring, a))
        } else {
            out[a % (out.len() as int)]
        }),
    decreases to - from,
{
    if from < to {
        lemma_copied(out, ring, from, to - 1, a);
        if a < to - 1 {
            lemma_distinct_slots(a, to - 1, out.len() as int);
        } else if to - 1 < a {
            lemma_distinct_slots(to - 1, a, out.len() as int);
        }
    }
}

proof fn lemma_cleared(out: Seq<Seq<Bits>>, from: int, to: int, a: int)
    requires
        0 < out.len(),
        from <= to <= from + out.len(),
        from <= a < from + out.len(),
    ensures
        cleared(out, from, to).len() == out.len(),
        cleared(out, from, to)[a % (out.len() as int)] == (if a < to {
            Seq::<Bits>::empty()
        } else {
            out[a % (out.len() as int)]
        }),
    decreases to - from,
{
    if from < to {
        lemma_cleared(out, from, to - 1, a);
        if a < to - 1 {
            lemma_distinct_slots(a, to - 1, out.len() as int);
        } else if to - 1 < a {
            lemma_distinct_slots(to - 1, a, out.len() as int);
        }
    }
}

/// What the output ring holds between unvoiced blocks: at every position between the
/// reading position and the end of the input just the sample that came in there, and
/// nothing elsewhere.
spec fn lined_up(p: Psola, out: Seq<Seq<Bits>>, tape: Seq<Bits>) -> bool {
    let len = p.history().len() as int;
    &&& p.wf()
    &&& p.underrun_count() == 0
    &&& tape.len() == p.taken()
    &&& p.finished() == p.taken()
    &&& out.len() == len
    &&& p.taken() <= p.reading() + len
    &&& forall|a: int|
        0 <= a < p.taken() && p.taken() - len <= a ==> #[trigger] heard(p.history(), a) == tape[a]
    &&& forall|a: int|
        p.reading() <= a < p.reading() + len ==> (#[trigger] place(out, a)) == (if a < p.taken() {
            seq![tape[a]]
        } else {
            Seq::empty()
        })
}

/// What the output ring holds for an absolute position.
spec fn place(out: Seq<Seq<Bits>>, a: int) -> Seq<Bits> {
    out[a % (out.len() as int)]
}

proof fn lemma_history_keeps_the_tape(pass: Pass, tape: Seq<Bits>)
    requires
        goes_through(pass),
        fits(pass),
        tape.len() == pass.before.taken(),
        forall|a: int|
            0 <= a < pass.before.taken() && pass.before.taken() - pass.before.history().len() <= a
                ==> #[trigger] heard(pass.before.history(), a) == tape[a],
    ensures
        pass.after.history().len() == pass.before.history().len(),
        forall|a: int|
            0 <= a < pass.after.taken() && pass.after.taken() - pass.after.history().len() <= a
                ==> #[trigger] heard(pass.after.history(), a) == (tape + pass.input)[a],
{
    let t0 = pass.before.taken();
    let ring = pass.before.history();
    lemma_written_len(ring, t0, pass.input);
    assert forall|a: int|
        0 <= a < pass.after.taken() && pass.after.taken() - ring.len() <= a implies #[trigger] heard(
        pass.after.history(),
        a,
    ) == (tape + pass.input)[a] by {
        if a < t0 {
            lemma_older_input_is_kept(ring, t0, pass.input, a);
            assert(heard(ring, a) == tape[a]);
        } else {
            recent_input_is_kept(ring, t0, pass.input, a - t0);
        }
    }
}

#[verifier::spinoff_prover]
#[verifier::rlimit(40)]
proof fn lemma_one_pass(pass: Pass, out: Seq<Seq<Bits>>, tape: Seq<Bits>)
    requires
        lined_up(pass.before, out, tape),
        goes_through(pass),
        fits(pass),
    ensures
        lined_up(pass.after, out_after(out, pass), tape + pass.input),
        forall|j: int|
            0 <= j < pass.input.len() ==> #[trigger] comes_out(out, pass, j) == (
            if pass.step.silent {
                Seq::<Bits>::empty()
            } else {
                seq![(tape + pass.input)[pass.before.taken() + j - 2 * pass.before.longest()]]
            }),
{
    let len = out.len() as int;
    let t0 = pass.before.taken();
    let t1 = pass.after.taken();
    let n = pass.input.len() as int;
    let r0 = pass.before.reading();
    let whole = tape + pass.input;
    let ring = pass.after.history();
    lemma_history_keeps_the_tape(pass, tape);
    assert(t1 <= r0 + len);
    let c = copied(out, ring, t0, t1);
    // After the copying every position since the last reading holds its sample.
    assert forall|a: int| r0 <= a < r0 + len implies c.len() == len && #[trigger] place(c, a) == (
    if a < t1 {
        seq![whole[a]]
    } else {
        Seq::<Bits>::empty()
    }) by {
        let b = if a < t0 {
            a + len
        } else {
            a
        };
        assert(b % len == a % len) by {
            vstd::arithmetic::div_mod::lemma_mod_add_multiples_vanish(a, len);
        }
        assert(place(out, a) == (if a < t0 {
            seq![tape[a]]
        } else {
            Seq::empty()
        }));
        if b < t0 + len {
            lemma_copied(out, ring, t0, t1, b);
            if t0 <= a < t1 {
                assert(heard(ring, a) == whole[a]);
                assert(Seq::<Bits>::empty().push(whole[a]) =~= seq![whole[a]]);
            }
        }
    }
    assert(c.len() == len) by {
        assert(place(c, r0) == place(c, r0));
        assert(r0 <= r0 < r0 + len);
    }
    let clear_to = pass.step.clear_to as int;
    let o = cleared(c, 0, clear_to);
    let r = if pass.after.is_primed() {
        pass.step.read_from as int
    } else {
        0
    };
    assert(o == ready_to_read(out, pass));
    assert(r0 <= r && (clear_to == 0 && r == r0 || r0 == 0 && clear_to == r));
    assert forall|a: int| r <= a < r0 + len implies #[trigger] place(o, a) == (if a < t1 {
        seq![whole[a]]
    } else {
        Seq::<Bits>::empty()
    }) && o.len() == len by {
        assert(place(c, a) == (if a < t1 {
            seq![whole[a]]
        } else {
            Seq::<Bits>::empty()
        }));
        if clear_to > 0 {
            lemma_cleared(c, 0, clear_to, a);
        }
    }
    assert forall|a: int| r0 + len <= a < r + len implies #[trigger] place(o, a) == Seq::<
        Bits,
    >::empty() by {
        assert(clear_to == r && r0 == 0);
        assert((a - len) % len == a % len) by {
            vstd::arithmetic::div_mod::lemma_mod_add_multiples_vanish(a - len, len);
        }
        lemma_cleared(c, 0, clear_to, a - len);
    }
    assert(o.len() == len) by {
        lemma_cleared(c, 0, clear_to, 0);
    }
    if pass.step.silent {
        assert(out_after(out, pass) == o);
        assert forall|a: int| 0 <= a < len implies (#[trigger] place(o, a)) == (if a < t1 {
            seq![whole[a]]
        } else {
            Seq::empty()
        }) by {
            assert(r <= a < r0 + len);
        }
    } else {
        let f = cleared(o, r, r + n);
        assert(out_after(out, pass) == f);
        assert(pass.step.ready == n);
        assert forall|a: int| r + n <= a < r + n + len implies (#[trigger] place(f, a)) == (if a
            < t1 {
            seq![whole[a]]
        } else {
            Seq::empty()
        }) && f.len() == len by {
            if a < r + len {
                lemma_cleared(o, r, r + n, a);
                assert(place(o, a) == (if a < t1 {
                    seq![whole[a]]
                } else {
                    Seq::empty()
                }));
            } else {
                assert((a - len) % len == a % len) by {
                    vstd::arithmetic::div_mod::lemma_mod_add_multiples_vanish(a - len, len);
                }
                lemma_cleared(o, r, r + n, a - len);
            }
        }
        assert(f.len() == len) by {
            lemma_cleared(o, r, r + n, r);
        }
        assert forall|j: int| 0 <= j < n implies #[trigger] comes_out(out, pass, j) == seq![
            whole[t0 + j - 2 * pass.before.longest()],
        ] by {
            assert(r + j == t0 + j - 2 * pass.before.longest());
            assert(place(o, r + j) == seq![whole[r + j]]);
        }
    }
}

/// Short blocks always fit: where no block of a run is longer than the longest period
/// and half the slack of the ring, the delay line fills before its ring is full.
pub proof fn short_blocks_always_fit(passes: Seq<Pass>, start: Psola, len: nat, k: int)
    requires
        unvoiced_run(passes, start, len),
        forall|i: int|
            0 <= i < passes.len() ==> (#[trigger] passes[i]).input.len() <= start.longest()
                + RING_SLACK / 2,
        0 <= k < passes.len(),
    ensures
        fits(passes[k]),
        passes[k].after.longest() == start.longest(),
        passes[k].after.history().len() == len,
        !passes[k].after.is_primed() ==> passes[k].after.taken() < 3 * start.longest() + RING_SLACK
            / 2,
    decreases k,
{
    if k > 0 {
        short_blocks_always_fit(passes, start, len, k - 1);
    }
    assert(goes_through(passes[k]));
    assert(passes[k].before.unmoved_from(&before_pass(passes, start, k)));
    assert(passes[k].input.len() <= start.longest() + RING_SLACK / 2);
    lemma_written_len(passes[k].before.history(), passes[k].before.taken(), passes[k].input);
}

proof fn lemma_run(passes: Seq<Pass>, start: Psola, len: nat)
    requires
        unvoiced_run(passes, start, len),
        forall|k: int| 0 <= k < passes.len() ==> #[trigger] fits(passes[k]),
    ensures
        ({
            let p = before_pass(passes, start, passes.len() as int);
            &&& lined_up(p, out_ring(passes, len), all_input(passes))
            &&& p.longest() == start.longest()
        }),
    decreases passes.len(),
{
    if passes.len() == 0 {
        let out = out_ring(passes, len);
        assert forall|a: int| 0 <= a < len implies (#[trigger] place(out, a)) == Seq::<
            Bits,
        >::empty() by {
            vstd::arithmetic::div_mod::lemma_small_mod(a as nat, len);
        }
    } else {
        let m = passes.len() - 1;
        let front = passes.drop_last();
        let last = passes.last();
        assert forall|k: int| 0 <= k < m implies #[trigger] goes_through(front[k]) by {
            assert(goes_through(passes[k]));
        }
        assert forall|k: int| 0 <= k < m implies (#[trigger] front[k]).before.unmoved_from(
            &before_pass(front, start, k),
        ) by {
            assert(passes[k].before.unmoved_from(&before_pass(passes, start, k)));
        }
        assert forall|k: int| 0 <= k < m implies #[trigger] fits(front[k]) by {
            assert(fits(passes[k]));
        }
        lemma_run(front, start, len);
        assert(goes_through(passes[m]) && fits(passes[m]));
        assert(last.before.unmoved_from(&before_pass(passes, start, m)));
        assert(before_pass(passes, start, m) == before_pass(front, start, m));
        lemma_one_pass(last, out_ring(front, len), all_input(front));
    }
}

/// Unvoiced input comes out unchanged, exactly two of the longest periods later. From the
/// block on with which reading starts, sample `j` of the last block of a run is just the
/// sample that came in that much earlier; before that the output is silence. Reading
/// starts with the first block that has the whole delay in front of it. Nothing is ever
/// read before it is finished, and the delay is always the same.
pub proof fn unvoiced_input_comes_out_unchanged(passes: Seq<Pass>, start: Psola, len: nat, j: int)
    requires
        unvoiced_run(passes, start, len),
        forall|k: int| 0 <= k < passes.len() ==> #[trigger] fits(passes[k]),
        passes.len() > 0,
        0 <= j < passes.last().input.len(),
    ensures
        ({
            let before = all_input(passes.drop_last()).len();
            let got = comes_out(out_ring(passes.drop_last(), len), passes.last(), j);
            let primed = passes.last().after.is_primed();
            &&& primed ==> got == seq![all_input(passes)[before + j - 2 * start.longest()]]
            &&& !primed ==> got == Seq::<Bits>::empty()
            &&& primed <==> before >= 2 * start.longest()
        }),
        passes.last().after.underrun_count() == 0,
        passes.last().after.longest() == start.longest(),
{
    let m = passes.len() - 1;
    let front = passes.drop_last();
    let last = passes.last();
    assert forall|k: int| 0 <= k < m implies #[trigger] goes_through(front[k]) by {
        assert(goes_through(passes[k]));
    }
    assert forall|k: int| 0 <= k < m implies (#[trigger] front[k]).before.unmoved_from(
        &before_pass(front, start, k),
    ) by {
        assert(passes[k].before.unmoved_from(&before_pass(passes, start, k)));
    }
    assert forall|k: int| 0 <= k < m implies #[trigger] fits(front[k]) by {
        assert(fits(passes[k]));
    }
    lemma_run(front, start, len);
    assert(goes_through(passes[m]) && fits(passes[m]));
    assert(last.before.unmoved_from(&before_pass(passes, start, m)));
    assert(before_pass(passes, start, m) == before_pass(front, start, m));
    lemma_one_pass(last, out_ring(front, len), all_input(front));
    assert(comes_out(out_ring(front, len), last, j) == comes_out(out_ring(front, len), last, j));
}

/// There is always a nearest mark.
proof fn lemma_nearest_exists(marks: Seq<u64>, p: int) -> (i: int)
    requires
        marks.len() > 0,
    ensures
        nearest_at(marks, p, i),
    decreases marks.len(),
{
    let n = marks.len() - 1;
    if n == 0 {
        0
    } else {
        let front = marks.drop_last();
        let j = lemma_nearest_exists(front, p);
        assert(marks[j] == front[j]);
        if apart(marks[n] as int, p) <= apart(marks[j] as int, p) {
            assert forall|k: int| 0 <= k < marks.len() implies apart(marks[n] as int, p) <= apart(
                #[trigger] marks[k] as int,
                p,
            ) by {
                if k < n {
                    assert(marks[k] == front[k]);
                }
            }
            n
        } else {
            assert forall|k: int| 0 <= k < marks.len() implies apart(marks[j] as int, p) <= apart(
                #[trigger] marks[k] as int,
                p,
            ) && (j < k ==> apart(marks[j] as int, p) < apart(marks[k] as int, p)) by {
                if k < n {
                    assert(marks[k] == front[k]);
                }
            }
            j
        }
    }
}

/// Every grain is cut from the pulse nearest to the place where it goes: its source is
/// one of the marks, and no mark lies closer to its place. Of two that are equally near
/// it is the newer one.
pub proof fn every_grain_is_cut_at_the_nearest_mark(
    marks: Seq<u64>,
    next: int,
    t: usize,
    t_out: int,
    guard: int,
    end: int,
    i: int,
)
    requires
        1 <= t_out,
        0 <= guard,
        0 <= next,
        end <= u64::MAX,
        0 <= i < grains_from(marks, next, t, t_out, guard, end).len(),
    ensures
        ({
            let g = grains_from(marks, next, t, t_out, guard, end)[i];
            &&& exists|k: int|
                0 <= k < marks.len() && #[trigger] marks[k] == g.src && forall|m: int|
                    k < m < marks.len() ==> vstd::math::abs(g.src - g.dst) < vstd::math::abs(
                        #[trigger] marks[m] - g.dst,
                    )
            &&& forall|m: int|
                0 <= m < marks.len() ==> vstd::math::abs(g.src - g.dst) <= vstd::math::abs(
                    #[trigger] marks[m] - g.dst,
                )
        }),
    decreases i,
{
    if i > 0 {
        every_grain_is_cut_at_the_nearest_mark(marks, next + t_out, t, t_out, guard, end, i - 1);
        assert(grains_from(marks, next, t, t_out, guard, end)[i] == grains_from(
            marks,
            next + t_out,
            t,
            t_out,
            guard,
            end,
        )[i - 1]);
    } else {
        let g = grains_from(marks, next, t, t_out, guard, end)[0];
        assert(g.dst == next);
        let _ = lemma_nearest_exists(marks, next);
        let k = choose|k: int| nearest_at(marks, next, k);
        assert(nearest_at(marks, next, k));
        assert(marks[k] == g.src);
        assert forall|m: int| 0 <= m < marks.len() implies vstd::math::abs(g.src - g.dst)
            <= vstd::math::abs(#[trigger] marks[m] - g.dst) by {
            assert(apart(marks[k] as int, next) <= apart(marks[m] as int, next));
        }
        assert forall|m: int| k < m < marks.len() implies vstd::math::abs(g.src - g.dst)
            < vstd::math::abs(#[trigger] marks[m] - g.dst) by {
            assert(apart(marks[k] as int, next) < apart(marks[m] as int, next));
        }
    }
}

/// Grains whose places are closest to different marks come from different pulses: where
/// one mark lies closer to the place of a grain than every other, that mark is the
/// grain's source. So the sources follow the places, and no pulse is left out for
/// another.
pub proof fn the_only_nearest_mark_is_the_source(
    marks: Seq<u64>,
    next: int,
    t: usize,
    t_out: int,
    guard: int,
    end: int,
    i: int,
    k: int,
)
    requires
        1 <= t_out,
        0 <= guard,
        0 <= next,
        end <= u64::MAX,
        0 <= i < grains_from(marks, next, t, t_out, guard, end).len(),
        0 <= k < marks.len(),
        forall|m: int|
            0 <= m < marks.len() && m != k ==> vstd::math::abs(marks[k] - (next + i * t_out))
                < vstd::math::abs(#[trigger] marks[m] - (next + i * t_out)),
    ensures
        grains_from(marks, next, t, t_out, guard, end)[i].src == marks[k],
{
    every_grain_is_cut_at_the_nearest_mark(marks, next, t, t_out, guard, end, i);
    output_marks_are_evenly_spaced(marks, next, t, t_out, guard, end, i);
    let g = grains_from(marks, next, t, t_out, guard, end)[i];
    let j = choose|j: int| 0 <= j < marks.len() && #[trigger] marks[j] == g.src;
    assert(vstd::math::abs(g.src - g.dst) <= vstd::math::abs(marks[k] - g.dst));
}

/// A pitch mark stands on the highest sample within the search radius, the first of
/// several. `ring` holds the sample of position `a` at `a` modulo its length.
pub proof fn a_mark_stands_on_the_highest_sample(
    ring: Seq<Bits>,
    center: int,
    radius: int,
    a: int,
)
    requires
        ring.len() > 0,
        0 <= radius <= center,
        center - radius <= a <= center + radius,
        forall|i: int| 0 <= i < ring.len() ==> single::low(#[trigger] ring[i]) < 0x7F80_0000,
    ensures
        ({
            let n = ring.len() as int;
            let r = first_peak(ring, center, radius);
            &&& center - radius <= r <= center + radius
            &&& single::value(ring[a % n]) <= single::value(ring[r % n])
            &&& a < r ==> single::value(ring[a % n]) < single::value(ring[r % n])
        }),
{
    let n = ring.len() as int;
    let p = lemma_peak_exists(ring, center - radius, center + radius, center);
    assert(peak_near(ring, center, radius, p));
    let r = first_peak(ring, center, radius);
    assert(peak_near(ring, center, radius, r));
    let x = ring[a % n];
    assert(0 <= a % n < n);
    assert(peakable(ring, a)) by {
        assert(single::low(x) < 0x7F80_0000);
        single::non_negative_patterns_order_as_integers(single::low(x) as Bits, single::INFINITY);
        single::non_negative_patterns_order_as_integers(0, single::low(x) as Bits);
        single::signs_mirror_the_numbers(0, single::INFINITY);
        single::signs_mirror_the_numbers(single::INFINITY, 0x7FFF_FFFF);
        if x >= 0x8000_0000 {
            if single::low(x) > 0 {
                single::signs_mirror_the_numbers(0, single::low(x) as Bits);
            }
        }
    }
}

/// The newest mark is always remembered, and of the older ones the latest: there are
/// never more than 64, and only the oldest is forgotten.
pub proof fn the_latest_marks_are_remembered(marks: Seq<u64>, e: u64)
    requires
        marks.len() <= 64,
    ensures
        remembered(marks, e).last() == e,
        remembered(marks, e).len() == (if marks.len() < 64 {
            marks.len() + 1
        } else {
            64
        }),
        forall|j: int|
            0 <= j < remembered(marks, e).len() - 1 ==> #[trigger] remembered(marks, e)[j]
                == marks[j + marks.len() + 1 - remembered(marks, e).len()],
{
}

/// Marks are followed as far as the input allows: behind the last of them there is no
/// room for another whole period with its search radius, and the input reaches at least
/// the guard beyond it.
pub proof fn marks_reach_the_end_of_the_input(
    ring: Seq<Bits>,
    marks: Seq<u64>,
    period: int,
    guard: int,
    end: int,
)
    requires
        2 <= period,
        0 <= guard,
        end <= u64::MAX,
        marks.len() > 0,
        marks.last() + guard <= end,
    ensures
        ({
            let m = marks_after(ring, marks, period, guard, end);
            &&& m.len() > 0
            &&& m.last() + guard <= end
            &&& m.last() + period + search_radius(period) + guard > end
            &&& marks.last() <= m.last()
        }),
    decreases end - marks.last(),
{
    let last = marks.last() as int;
    if last + period + search_radius(period) + guard <= end {
        marks_advance_by_about_a_period(ring, last, period);
        let e = following_mark(ring, last, period);
        assert(remembered(marks, e as u64).last() == e);
        marks_reach_the_end_of_the_input(ring, remembered(marks, e as u64), period, guard, end);
    }
}

/// The first mark of a voiced stretch lies within a search radius of the place one period
/// and the guard before the end of the input; before there is enough input there is
/// none.
pub proof fn the_first_mark_lies_near_the_end(
    ring: Seq<Bits>,
    period: int,
    guard: int,
    end: int,
)
    requires
        2 <= period,
        0 <= guard,
        end <= u64::MAX,
    ensures
        end <= guard + period + search_radius(period) ==> marks_after(
            ring,
            Seq::empty(),
            period,
            guard,
            end,
        ).len() == 0,
        end > guard + period + search_radius(period) ==> exists|e: u64|
            end - guard - period - search_radius(period) <= e <= end - guard - period
                + search_radius(period) && marks_after(ring, Seq::empty(), period, guard, end)
                == #[trigger] followed(ring, seq![e], period, guard, end),
{
    if end > guard + period + search_radius(period) {
        let center = end - guard - period;
        let radius = search_radius(period);
        let p = lemma_peak_exists(ring, center - radius, center + radius, center);
        assert(peak_near(ring, center, radius, p));
        let e = first_peak(ring, center, radius);
        assert(peak_near(ring, center, radius, e));
        assert(followed(ring, seq![e as u64], period, guard, end) == marks_after(
            ring,
            Seq::empty(),
            period,
            guard,
            end,
        ));
    }
}

/// The search radius is a quarter of the period, and at least one sample: never so wide
/// that two searches one period apart meet.
pub proof fn searches_do_not_meet(period: int)
    requires
        period >= 1,
    ensures
        search_radius(period) >= 1,
        period >= 4 ==> 4 * search_radius(period) <= period < 4 * search_radius(period) + 4,
        period >= 3 ==> 2 * search_radius(period) < period,
{
}

/// A value that is held lies within its bounds, is itself where it lies between them, and
/// is the nearer bound elsewhere.
pub proof fn held_values_go_to_the_nearer_bound(x: int, lo: int, hi: int)
    requires
        lo <= hi,
    ensures
        lo <= held(x, lo, hi) <= hi,
        lo <= x <= hi ==> held(x, lo, hi) == x,
        x < lo ==> held(x, lo, hi) == lo,
        hi < x ==> held(x, lo, hi) == hi,
{
}

/// The grains of a block fill the output up: they lie one output period apart from the
/// first place on, the next one would need input that has not come yet, and it is where
/// the grains of the following block go on.
pub proof fn grains_fill_the_output(
    marks: Seq<u64>,
    next: int,
    t: usize,
    t_out: int,
    guard: int,
    end: int,
)
    requires
        1 <= t_out,
        0 <= guard,
        0 <= next,
        end <= u64::MAX,
    ensures
        ({
            let n = grains_from(marks, next, t, t_out, guard, end).len();
            let following = next_after(marks, next, t_out, guard, end);
            &&& following == next + n * t_out
            &&& marks.len() > 0 ==> following + guard > end
            &&& marks.len() > 0 && n > 0 ==> following - t_out + guard <= end
            &&& marks.len() == 0 ==> n == 0
        }),
    decreases end + t_out - next,
{
    if next + guard <= end && marks.len() > 0 {
        grains_fill_the_output(marks, next + t_out, t, t_out, guard, end);
        let rest = grains_from(marks, next + t_out, t, t_out, guard, end).len();
        assert(next + t_out + rest * t_out == next + (rest + 1) * t_out) by (nonlinear_arith);
    }
}

/// A new voiced stretch begins one longest period behind all that is finished or read
/// already; one under way goes on at its next mark.
pub proof fn a_stretch_begins_behind_what_is_finished(p: Psola)
    requires
        p.wf(),
    ensures
        p.synthesizing() ==> p.first_output_mark() == p.next_mark(),
        !p.synthesizing() ==> p.first_output_mark() - p.longest() >= p.finished()
            && p.first_output_mark() - p.longest() >= p.reading() && (p.first_output_mark()
            - p.longest() == p.finished() || p.first_output_mark() - p.longest() == p.reading()),
{
}

/// The shifts are held within an octave either way: the bounds are half and double the
/// ratio that shifts nothing.
pub proof fn shifts_stay_within_an_octave(x: Bits)
    requires
        !single::nan(x),
    ensures
        2 * single::value(HALF) == single::value(single::ONE),
        single::value(TWO) == 2 * single::value(single::ONE),
        single::value(HALF) <= single::value(single::clamped(x, HALF, TWO)) <= single::value(TWO),
        single::value(HALF) <= single::value(x) <= single::value(TWO) ==> single::clamped(
            x,
            HALF,
            TWO,
        ) == x,
{
    single::one_exponent_more_is_twice_the_number(HALF);
    single::one_exponent_more_is_twice_the_number(single::ONE);
    single::non_negative_patterns_order_as_integers(HALF, TWO);
    single::clamping_goes_to_the_nearer_bound(x, HALF, TWO);
}

} // verus!
