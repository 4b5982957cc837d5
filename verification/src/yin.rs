//! Choosing the period in a pitch detector: which lag of the normalised
//! difference function is the period.
//!
//! The function itself (`cmnd`, by lag) is worked out by the caller; small
//! values mean that the signal repeats after that lag.
use crate::fft;
use crate::single::{self, Bits};
use vstd::prelude::*;

verus! {

/// 0.45: a valley above this is no period.
pub const CANDIDATE_MAX: Bits = 0x3EE6_6666;

/// A pitch estimate.
#[derive(Clone, Copy, PartialEq, Eq, Structural, Debug)]
pub struct PitchEstimate {
    /// Pitch in Hz. Means nothing where the estimate is not voiced.
    pub f0_hz: Bits,
    /// Is there a definite pitch?
    pub is_voiced: bool,
    /// How far the signal is from repeating itself: the value at the lag.
    pub aperiodicity: Bits,
}

/// The estimate for silence.
pub open spec fn no_pitch() -> PitchEstimate {
    PitchEstimate { f0_hz: single::ZERO, is_voiced: false, aperiodicity: single::ONE }
}

impl PitchEstimate {
    /// The estimate for silence.
    pub fn unvoiced() -> (e: PitchEstimate)
        ensures
            e == no_pitch(),
    {
        PitchEstimate { f0_hz: single::ZERO, is_voiced: false, aperiodicity: single::ONE }
    }
}

/// The lags that are looked at.
#[derive(Clone, Copy, PartialEq, Eq, Structural, Debug)]
pub struct Yin {
    pub tau_min: usize,
    pub tau_max: usize,
    /// Samples compared at each lag.
    pub window: usize,
    /// Length of the transform that works the correlation out.
    pub fft_len: usize,
}

/// Lag `t` is the first from `lo` to `hi` below the threshold.
pub open spec fn first_below(cmnd: Seq<Bits>, lo: int, hi: int, threshold: Bits, t: int) -> bool {
    &&& lo <= t <= hi
    &&& single::less(cmnd[t], threshold)
    &&& forall|j: int| lo <= j < t ==> !single::less(#[trigger] cmnd[j], threshold)
}

/// No lag from `lo` to `hi` is below the threshold.
pub open spec fn none_below(cmnd: Seq<Bits>, lo: int, hi: int, threshold: Bits) -> bool {
    forall|j: int| lo <= j <= hi ==> !single::less(#[trigger] cmnd[j], threshold)
}

/// Going down from `t` as long as the next lag is lower, one ends at `v`.
pub open spec fn descends_to(cmnd: Seq<Bits>, t: int, hi: int, v: int) -> bool {
    &&& t <= v <= hi
    &&& forall|j: int| t <= j < v ==> single::less(cmnd[j + 1], #[trigger] cmnd[j])
    &&& v < hi ==> !single::less(cmnd[v + 1], cmnd[v])
}

/// Lag `t` is the lowest from `lo` to `hi`, the first of several.
pub open spec fn lowest_at(cmnd: Seq<Bits>, lo: int, hi: int, t: int) -> bool {
    &&& lo <= t <= hi
    &&& single::less(cmnd[t], single::INFINITY)
    &&& forall|j: int| lo <= j <= hi ==> !single::less(#[trigger] cmnd[j], cmnd[t])
    &&& forall|j: int|
        lo <= j < t && single::less(#[trigger] cmnd[j], single::INFINITY) ==> single::less(
            cmnd[t],
            cmnd[j],
        )
}

/// The lag picked: the bottom of the first valley that goes below the
/// threshold, or the lowest lag of all where none does, or none where there is
/// no lowest. Taking the first valley, and not the deepest, keeps the pitch
/// from falling an octave.
pub open spec fn picked(cmnd: Seq<Bits>, lo: int, hi: int, threshold: Bits, r: Option<int>) -> bool {
    if none_below(cmnd, lo, hi, threshold) {
        match r {
            Some(t) => lowest_at(cmnd, lo, hi, t),
            None => none_below(cmnd, lo, hi, single::INFINITY),
        }
    } else {
        r matches Some(v) && exists|t: int| #[trigger]
            first_below(cmnd, lo, hi, threshold, t) && descends_to(cmnd, t, hi, v)
    }
}

/// Picks the lag.
pub fn pick_lag(cmnd: &Vec<Bits>, lo: usize, hi: usize, threshold: Bits) -> (r: Option<usize>)
    requires
        lo <= hi < cmnd@.len(),
    ensures
        picked(
            cmnd@,
            lo as int,
            hi as int,
            threshold,
            match r {
                Some(t) => Some(t as int),
                None => None,
            },
        ),
        r matches Some(t) ==> lo <= t <= hi,
{
    let total: usize = cmnd.len();
    let mut tau: usize = lo;
    let mut found: bool = false;
    while tau <= hi && !found
        invariant
            lo <= tau <= hi + 1,
            hi < total,
            total == cmnd@.len(),
            forall|j: int| lo <= j < tau ==> !single::less(#[trigger] cmnd@[j], threshold),
            found ==> tau <= hi && single::less(cmnd@[tau as int], threshold),
        decreases hi + 1 - tau, (if found { 0int } else { 1int }),
    {
        if single::lt(cmnd[tau], threshold) {
            found = true;
        } else {
            tau = tau + 1;
        }
    }
    if found {
        let ghost first = tau as int;
        assert(first_below(cmnd@, lo as int, hi as int, threshold, first));
        while tau + 1 <= hi && single::lt(cmnd[tau + 1], cmnd[tau])
            invariant
                first <= tau <= hi < total,
                total == cmnd@.len(),
                forall|j: int| first <= j < tau ==> single::less(cmnd@[j + 1], #[trigger] cmnd@[j]),
            decreases hi - tau,
        {
            tau = tau + 1;
        }
        assert(descends_to(cmnd@, first, hi as int, tau as int));
        assert(!none_below(cmnd@, lo as int, hi as int, threshold)) by {
            assert(single::less(cmnd@[first], threshold));
        }
        return Some(tau);
    }
    let mut best: Option<usize> = None;
    let mut bar: Bits = single::INFINITY;
    let mut t: usize = lo;
    while t <= hi
        invariant
            lo <= t <= hi + 1,
            hi < total,
            total == cmnd@.len(),
            best is None ==> bar == single::INFINITY && forall|j: int|
                lo <= j < t ==> !single::less(#[trigger] cmnd@[j], single::INFINITY),
            best matches Some(b) ==> lo <= b < t && bar == cmnd@[b as int] && lowest_at(
                cmnd@,
                lo as int,
                t - 1,
                b as int,
            ),
        decreases hi + 1 - t,
    {
        if single::lt(cmnd[t], bar) {
            bar = cmnd[t];
            best = Some(t);
        }
        t = t + 1;
    }
    best
}

/// The lowest lag from `lo` to `hi`, the first of several; one that is not a
/// number at `lo` stays.
pub open spec fn valley(cmnd: Seq<Bits>, lo: int, hi: int) -> int
    decreases hi - lo,
{
    if hi <= lo {
        lo
    } else {
        let b = valley(cmnd, lo, hi - 1);
        if single::less(cmnd[hi], cmnd[b]) {
            hi
        } else {
            b
        }
    }
}

/// The larger of two lags.
pub open spec fn later(a: int, b: int) -> int {
    if a < b {
        b
    } else {
        a
    }
}

/// The smaller of two lags.
pub open spec fn earlier(a: int, b: int) -> int {
    if b < a {
        b
    } else {
        a
    }
}

/// The lag near `tau / k` that might be the true period.
pub open spec fn sub_lag(cmnd: Seq<Bits>, y: Yin, tau: int, k: int) -> int {
    let cand = tau / k;
    let radius = later(cand / 50, 2);
    valley(cmnd, later(cand - radius, y.tau_min as int), earlier(cand + radius, y.tau_max as int))
}

/// Is the lag near `tau / k` taken for the period? It has to be a valley and
/// not a slope, look like a period at all, and be not much worse than `tau`:
/// at most `limit`.
pub open spec fn sub_taken(cmnd: Seq<Bits>, y: Yin, tau: int, k: int, limit: Bits) -> bool {
    let b = sub_lag(cmnd, y, tau, k);
    &&& tau / k >= y.tau_min
    &&& 0 < b < y.tau_max
    &&& single::at_most(cmnd[b], cmnd[b - 1])
    &&& single::at_most(cmnd[b], cmnd[b + 1])
    &&& single::less(cmnd[b], CANDIDATE_MAX)
    &&& single::at_most(cmnd[b], limit)
}

/// The lag after a third and a half have been tried in its place.
pub open spec fn recovered(cmnd: Seq<Bits>, y: Yin, tau: int, limit: Bits) -> int {
    if sub_taken(cmnd, y, tau, 3, limit) {
        sub_lag(cmnd, y, tau, 3)
    } else if sub_taken(cmnd, y, tau, 2, limit) {
        sub_lag(cmnd, y, tau, 2)
    } else {
        tau
    }
}

fn find_valley(cmnd: &Vec<Bits>, lo: usize, hi: usize) -> (b: usize)
    requires
        lo <= hi < cmnd@.len(),
    ensures
        b == valley(cmnd@, lo as int, hi as int),
        lo <= b <= hi,
{
    let mut b: usize = lo;
    let mut t: usize = lo;
    while t < hi
        invariant
            lo <= t <= hi < cmnd@.len(),
            lo <= b <= t,
            b == valley(cmnd@, lo as int, t as int),
        decreases hi - t,
    {
        t = t + 1;
        if single::lt(cmnd[t], cmnd[b]) {
            b = t;
        }
    }
    b
}

/// The estimate for a lag whose pitch is `f0`.
pub open spec fn estimate_at(cmnd: Seq<Bits>, tau: int, f0: Bits, loose: Bits) -> PitchEstimate {
    PitchEstimate {
        f0_hz: f0,
        is_voiced: single::less(cmnd[tau], loose),
        aperiodicity: cmnd[tau],
    }
}

/// What an analysis works with, besides the signal.
pub struct Terms {
    /// The level below which the signal is silence.
    pub silence: Bits,
    pub threshold: Bits,
    /// Twice the threshold.
    pub loose: Bits,
    /// A value with the tolerance on top.
    pub eased: spec_fn(Bits) -> Bits,
    /// The pitch of a lag, refined between samples.
    pub pitch: spec_fn(Seq<Bits>, int) -> Bits,
}

/// The estimate once a lag has been picked, or none.
pub open spec fn estimate_of(y: Yin, cmnd: Seq<Bits>, terms: Terms, lag: Option<int>) -> PitchEstimate {
    match lag {
        None => no_pitch(),
        Some(t) => {
            let tau = recovered(cmnd, y, t, (terms.eased)(cmnd[t]));
            estimate_at(cmnd, tau, (terms.pitch)(cmnd, tau), terms.loose)
        },
    }
}

/// A whole analysis: `e` is the estimate for `len` samples, of which the first
/// [`Yin::required_len`] have the level `rms` and the differences `cmnd`.
pub open spec fn analysed(
    y: Yin,
    len: int,
    rms: Bits,
    cmnd: Seq<Bits>,
    terms: Terms,
    e: PitchEstimate,
) -> bool {
    if !y.worth(len, rms, terms.silence) {
        e == no_pitch()
    } else {
        exists|lag: Option<int>| #[trigger]
            picked(cmnd, y.tau_min as int, y.tau_max as int, terms.threshold, lag) && e
                == estimate_of(y, cmnd, terms, lag)
    }
}

impl Yin {
    /// What holds of every detector.
    pub open spec fn wf(&self) -> bool {
        &&& 2 <= self.tau_min <= self.tau_max
        &&& self.window == self.tau_max
        &&& 4 * self.tau_max + 4 <= usize::MAX
        &&& crate::sizes::rounded_up(2 * self.tau_max + 1, self.fft_len as int)
    }

    /// Is there anything to analyse?
    pub open spec fn worth(&self, len: int, rms: Bits, silence: Bits) -> bool {
        len >= self.window + self.tau_max && !single::less(rms, silence)
    }

    /// A detector for lags from `tau_min` to `tau_max`.
    pub fn new(tau_min: usize, tau_max: usize) -> (y: Yin)
        requires
            2 <= tau_min <= tau_max,
            4 * tau_max + 4 <= usize::MAX,
        ensures
            y.wf(),
            y.tau_min == tau_min,
            y.tau_max == tau_max,
    {
        Yin { tau_min, tau_max, window: tau_max, fft_len: fft::required_len(tau_max, tau_max) }
    }

    /// Samples that an analysis needs.
    pub fn required_len(&self) -> (n: usize)
        requires
            self.wf(),
        ensures
            n == self.window + self.tau_max,
    {
        self.window + self.tau_max
    }

    /// The longest lag.
    pub fn tau_max(&self) -> (t: usize)
        ensures
            t == self.tau_max,
    {
        self.tau_max
    }

    /// Length of the transform.
    pub fn fft_len(&self) -> (n: usize)
        ensures
            n == self.fft_len,
    {
        self.fft_len
    }

    /// Is there anything to analyse: enough samples, and none too quiet? `rms` is
    /// the level of the window, `silence` the level below which it is silence.
    pub fn worth_analyzing(&self, len: usize, rms: Bits, silence: Bits) -> (r: bool)
        requires
            self.wf(),
        ensures
            r == self.worth(len as int, rms, silence),
    {
        len >= self.required_len() && !single::lt(rms, silence)
    }

    /// Picks the lag, as [`pick_lag`] does over the lags of this detector.
    pub fn pick(&self, cmnd: &Vec<Bits>, threshold: Bits) -> (r: Option<usize>)
        requires
            self.wf(),
            cmnd@.len() == self.tau_max + 1,
        ensures
            picked(
                cmnd@,
                self.tau_min as int,
                self.tau_max as int,
                threshold,
                match r {
                    Some(t) => Some(t as int),
                    None => None,
                },
            ),
            r matches Some(t) ==> self.tau_min <= t <= self.tau_max,
    {
        pick_lag(cmnd, self.tau_min, self.tau_max, threshold)
    }

    /// The values before, at and after a lag, through which a parabola is laid to
    /// find the lag between samples. The last lag has none after it.
    pub fn neighbours(&self, cmnd: &Vec<Bits>, tau: usize) -> (r: Option<(Bits, Bits, Bits)>)
        requires
            self.wf(),
            cmnd@.len() == self.tau_max + 1,
            tau <= self.tau_max,
        ensures
            r == (if 0 < tau < self.tau_max {
                Some((cmnd@[tau - 1], cmnd@[tau as int], cmnd@[tau + 1]))
            } else {
                None
            }),
    {
        if tau == 0 || tau + 1 > self.tau_max {
            None
        } else {
            Some((cmnd[tau - 1], cmnd[tau], cmnd[tau + 1]))
        }
    }

    /// The estimate for a lag: `f0` is its pitch, and it is voiced where its value
    /// lies below `loose`, twice the threshold.
    pub fn estimate(&self, cmnd: &Vec<Bits>, tau: usize, f0: Bits, loose: Bits) -> (e:
        PitchEstimate)
        requires
            self.wf(),
            cmnd@.len() == self.tau_max + 1,
            tau <= self.tau_max,
        ensures
            e == estimate_at(cmnd@, tau as int, f0, loose),
    {
        PitchEstimate {
            f0_hz: f0,
            is_voiced: single::lt(cmnd[tau], loose),
            aperiodicity: cmnd[tau],
        }
    }

    fn try_sub(&self, cmnd: &Vec<Bits>, tau: usize, k: usize, limit: Bits) -> (r: Option<usize>)
        requires
            self.wf(),
            cmnd@.len() == self.tau_max + 1,
            tau <= self.tau_max,
            k == 2 || k == 3,
        ensures
            r is Some <==> sub_taken(cmnd@, *self, tau as int, k as int, limit),
            r matches Some(b) ==> b == sub_lag(cmnd@, *self, tau as int, k as int),
    {
        let cand: usize = tau / k;
        if cand < self.tau_min {
            return None;
        }
        let radius: usize = if cand / 50 < 2 {
            2
        } else {
            cand / 50
        };
        let below: usize = cand.saturating_sub(radius);
        let lo: usize = if below < self.tau_min {
            self.tau_min
        } else {
            below
        };
        let hi: usize = if self.tau_max < cand + radius {
            self.tau_max
        } else {
            cand + radius
        };
        assert(cand <= tau);
        let b: usize = find_valley(cmnd, lo, hi);
        if b > 0 && b < self.tau_max && single::le(cmnd[b], cmnd[b - 1]) && single::le(
            cmnd[b],
            cmnd[b + 1],
        ) && single::lt(cmnd[b], CANDIDATE_MAX) && single::le(cmnd[b], limit) {
            Some(b)
        } else {
            None
        }
    }

    /// Brings a lag back that noise has pushed to twice or three times the
    /// period. `limit` is the value at `tau` with the tolerance on top. A third
    /// is tried before a half.
    pub fn undo_subharmonic(&self, cmnd: &Vec<Bits>, tau: usize, limit: Bits) -> (r: usize)
        requires
            self.wf(),
            cmnd@.len() == self.tau_max + 1,
            self.tau_min <= tau <= self.tau_max,
        ensures
            r == recovered(cmnd@, *self, tau as int, limit),
            self.tau_min <= r <= tau,
    {
        proof {
            lemma_sub_lag_bounds(cmnd@, *self, tau as int, 3);
            lemma_sub_lag_bounds(cmnd@, *self, tau as int, 2);
        }
        match self.try_sub(cmnd, tau, 3, limit) {
            Some(b) => {
                return b;
            },
            None => {},
        }
        match self.try_sub(cmnd, tau, 2, limit) {
            Some(b) => b,
            None => tau,
        }
    }
}

proof fn lemma_valley_bounds(cmnd: Seq<Bits>, lo: int, hi: int)
    requires
        lo <= hi,
    ensures
        lo <= valley(cmnd, lo, hi) <= hi,
    decreases hi - lo,
{
    if lo < hi {
        lemma_valley_bounds(cmnd, lo, hi - 1);
    }
}

proof fn lemma_sub_lag_bounds(cmnd: Seq<Bits>, y: Yin, tau: int, k: int)
    requires
        2 <= y.tau_min,
        y.tau_min <= tau <= y.tau_max,
        k == 2 || k == 3,
    ensures
        tau / k >= y.tau_min ==> y.tau_min <= sub_lag(cmnd, y, tau, k) <= tau,
{
    let cand = tau / k;
    if cand >= y.tau_min {
        let radius = later(cand / 50, 2);
        lemma_valley_bounds(
            cmnd,
            later(cand - radius, y.tau_min as int),
            earlier(cand + radius, y.tau_max as int),
        );
    }
}

/// Recovery only ever raises the pitch: the lag never grows, and stays among
/// those that are looked at.
pub proof fn recovery_never_lowers_the_pitch(cmnd: Seq<Bits>, y: Yin, tau: int, limit: Bits)
    requires
        y.wf(),
        y.tau_min <= tau <= y.tau_max,
    ensures
        y.tau_min <= recovered(cmnd, y, tau, limit) <= tau,
{
    lemma_sub_lag_bounds(cmnd, y, tau, 3);
    lemma_sub_lag_bounds(cmnd, y, tau, 2);
}

/// The valley is the lowest of its range, where all values are numbers.
pub proof fn the_valley_is_the_lowest(cmnd: Seq<Bits>, lo: int, hi: int, j: int)
    requires
        lo <= j <= hi,
        forall|i: int| lo <= i <= hi ==> !single::nan(#[trigger] cmnd[i]),
    ensures
        single::at_most(cmnd[valley(cmnd, lo, hi)], cmnd[j]),
    decreases hi - lo,
{
    lemma_valley_bounds(cmnd, lo, hi);
    assert(!single::nan(cmnd[hi]) && !single::nan(cmnd[lo]) && !single::nan(cmnd[j]));
    if lo < hi {
        lemma_valley_bounds(cmnd, lo, hi - 1);
        let b = valley(cmnd, lo, hi - 1);
        assert(!single::nan(cmnd[b]));
        if j < hi {
            the_valley_is_the_lowest(cmnd, lo, hi - 1, j);
        } else {
            the_valley_is_the_lowest(cmnd, lo, hi - 1, lo);
        }
    }
}

/// The lag that is picked is the only one.
pub proof fn one_lag_is_picked(
    cmnd: Seq<Bits>,
    lo: int,
    hi: int,
    threshold: Bits,
    a: Option<int>,
    b: Option<int>,
)
    requires
        picked(cmnd, lo, hi, threshold, a),
        picked(cmnd, lo, hi, threshold, b),
    ensures
        a == b,
{
    if none_below(cmnd, lo, hi, threshold) {
        match (a, b) {
            (Some(t), Some(u)) => {
                if t < u {
                    assert(single::less(cmnd[t], single::INFINITY));
                    assert(single::less(cmnd[u], cmnd[t]));
                } else if u < t {
                    assert(single::less(cmnd[u], single::INFINITY));
                    assert(single::less(cmnd[t], cmnd[u]));
                }
            },
            (Some(t), None) => {
                assert(!single::less(cmnd[t], single::INFINITY));
            },
            (None, Some(u)) => {
                assert(!single::less(cmnd[u], single::INFINITY));
            },
            (None, None) => {},
        }
    } else {
        let v = a->0;
        let w = b->0;
        let t = choose|t: int| #[trigger]
            first_below(cmnd, lo, hi, threshold, t) && descends_to(cmnd, t, hi, v);
        let u = choose|u: int| #[trigger]
            first_below(cmnd, lo, hi, threshold, u) && descends_to(cmnd, u, hi, w);
        assert(t == u) by {
            if t < u {
                assert(!single::less(cmnd[t], threshold));
            } else if u < t {
                assert(!single::less(cmnd[u], threshold));
            }
        }
        if v < w {
            assert(single::less(cmnd[v + 1], cmnd[v]));
        } else if w < v {
            assert(single::less(cmnd[w + 1], cmnd[w]));
        }
    }
}

/// An analysis has one outcome. It rests on the samples that it needs alone: neither on
/// how many follow them, nor on what was analysed before.
pub proof fn an_analysis_rests_on_its_window_alone(
    y: Yin,
    len: int,
    longer: int,
    rms: Bits,
    cmnd: Seq<Bits>,
    terms: Terms,
    a: PitchEstimate,
    b: PitchEstimate,
)
    requires
        y.window + y.tau_max <= len <= longer,
        analysed(y, len, rms, cmnd, terms, a),
        analysed(y, longer, rms, cmnd, terms, b),
    ensures
        a == b,
{
    if y.worth(len, rms, terms.silence) {
        let lo = y.tau_min as int;
        let hi = y.tau_max as int;
        let s = choose|lag: Option<int>| #[trigger]
            picked(cmnd, lo, hi, terms.threshold, lag) && a == estimate_of(y, cmnd, terms, lag);
        let t = choose|lag: Option<int>| #[trigger]
            picked(cmnd, lo, hi, terms.threshold, lag) && b == estimate_of(y, cmnd, terms, lag);
        one_lag_is_picked(cmnd, lo, hi, terms.threshold, s, t);
    }
}

/// Too few samples, or silence, have no pitch.
pub proof fn silence_has_no_pitch(
    y: Yin,
    len: int,
    rms: Bits,
    cmnd: Seq<Bits>,
    terms: Terms,
    e: PitchEstimate,
)
    requires
        len < y.window + y.tau_max || single::less(rms, terms.silence),
        analysed(y, len, rms, cmnd, terms, e),
    ensures
        !e.is_voiced,
        e == no_pitch(),
{
}

/// A voiced estimate repeats itself well enough, and has a pitch above zero: that of a
/// lag that is looked at, and every one of these has such a pitch.
pub proof fn a_voiced_estimate_is_periodic(
    y: Yin,
    len: int,
    rms: Bits,
    cmnd: Seq<Bits>,
    terms: Terms,
    e: PitchEstimate,
)
    requires
        y.wf(),
        analysed(y, len, rms, cmnd, terms, e),
        e.is_voiced,
        forall|t: int|
            y.tau_min <= t <= y.tau_max ==> single::less(
                single::ZERO,
                #[trigger] (terms.pitch)(cmnd, t),
            ),
    ensures
        single::less(e.aperiodicity, terms.loose),
        single::less(single::ZERO, e.f0_hz),
        exists|t: int|
            y.tau_min <= t <= y.tau_max && e == estimate_at(
                cmnd,
                t,
                #[trigger] (terms.pitch)(cmnd, t),
                terms.loose,
            ),
{
    let lo = y.tau_min as int;
    let hi = y.tau_max as int;
    assert(y.worth(len, rms, terms.silence));
    let lag = choose|lag: Option<int>| #[trigger]
        picked(cmnd, lo, hi, terms.threshold, lag) && e == estimate_of(y, cmnd, terms, lag);
    match lag {
        None => {},
        Some(t) => {
            assert(lo <= t <= hi);
            let limit = (terms.eased)(cmnd[t]);
            recovery_never_lowers_the_pitch(cmnd, y, t, limit);
            let tau = recovered(cmnd, y, t, limit);
            assert(single::less(single::ZERO, (terms.pitch)(cmnd, tau)));
        },
    }
}

/// Where some lag lies below the threshold, the lag picked is the bottom of the first
/// valley that does: it lies below the threshold itself, no lag before the first one below
/// it is, the values fall all the way from there, and they do not fall on. Taking the
/// first valley, and not the deepest, keeps the pitch from falling an octave.
pub proof fn the_first_deep_valley_is_picked(
    cmnd: Seq<Bits>,
    lo: int,
    hi: int,
    threshold: Bits,
    r: Option<int>,
    below: int,
)
    requires
        0 <= lo <= hi < cmnd.len(),
        forall|i: int| 0 <= i < cmnd.len() ==> !single::nan(#[trigger] cmnd[i]),
        !single::nan(threshold),
        lo <= below <= hi,
        single::value(cmnd[below]) < single::value(threshold),
        forall|i: int| lo <= i < below ==> single::value(#[trigger] cmnd[i]) >= single::value(threshold),
        picked(cmnd, lo, hi, threshold, r),
    ensures
        r matches Some(v) && {
            &&& below <= v <= hi
            &&& single::value(cmnd[v]) < single::value(threshold)
            &&& single::value(cmnd[v]) <= single::value(cmnd[below])
            &&& forall|i: int|
                below <= i < v ==> single::value(cmnd[i + 1]) < single::value(#[trigger] cmnd[i])
            &&& v < hi ==> single::value(cmnd[v + 1]) >= single::value(cmnd[v])
        },
{
    assert(!none_below(cmnd, lo, hi, threshold)) by {
        assert(single::less(cmnd[below], threshold));
    }
    let v = r->0;
    let t = choose|t: int| #[trigger]
        first_below(cmnd, lo, hi, threshold, t) && descends_to(cmnd, t, hi, v);
    assert(t == below) by {
        if t < below {
            assert(single::value(cmnd[t]) >= single::value(threshold));
        } else if below < t {
            assert(!single::less(cmnd[below], threshold));
        }
    }
    lemma_descent(cmnd, below, v);
    if v < hi {
        assert(!single::nan(cmnd[v + 1]) && !single::nan(cmnd[v]));
    }
    assert forall|i: int| below <= i < v implies single::value(cmnd[i + 1]) < single::value(
        #[trigger] cmnd[i],
    ) by {
        assert(single::less(cmnd[i + 1], cmnd[i]));
    }
}

proof fn lemma_descent(cmnd: Seq<Bits>, t: int, v: int)
    requires
        t <= v,
        forall|j: int| t <= j < v ==> single::less(cmnd[j + 1], #[trigger] cmnd[j]),
    ensures
        single::value(cmnd[v]) <= single::value(cmnd[t]),
    decreases v - t,
{
    if t < v {
        assert(single::less(cmnd[t + 1], cmnd[t]));
        lemma_descent(cmnd, t + 1, v);
    }
}

/// Where no lag lies below the threshold, the lag picked has the lowest value of all, and
/// no earlier one has it too.
pub proof fn otherwise_the_lowest_lag_is_picked(
    cmnd: Seq<Bits>,
    lo: int,
    hi: int,
    threshold: Bits,
    r: Option<int>,
    j: int,
)
    requires
        0 <= lo <= hi < cmnd.len(),
        forall|i: int| 0 <= i < cmnd.len() ==> single::low(#[trigger] cmnd[i]) < 0x7F80_0000,
        !single::nan(threshold),
        forall|i: int| lo <= i <= hi ==> single::value(#[trigger] cmnd[i]) >= single::value(threshold),
        picked(cmnd, lo, hi, threshold, r),
        lo <= j <= hi,
    ensures
        r matches Some(v) && {
            &&& lo <= v <= hi
            &&& single::value(cmnd[v]) <= single::value(cmnd[j])
            &&& j < v ==> single::value(cmnd[v]) < single::value(cmnd[j])
        },
{
    assert(none_below(cmnd, lo, hi, threshold));
    assert forall|i: int| lo <= i <= hi implies single::less(#[trigger] cmnd[i], single::INFINITY) by {
        let x = cmnd[i];
        single::zero_is_zero();
        single::non_negative_patterns_order_as_integers(single::low(x) as Bits, single::INFINITY);
        single::non_negative_patterns_order_as_integers(0, single::low(x) as Bits);
        single::non_negative_patterns_order_as_integers(0, single::INFINITY);
    }
    assert(single::less(cmnd[j], single::INFINITY));
    assert(!single::nan(cmnd[j]));
    match r {
        Some(v) => {
            assert(!single::less(cmnd[j], cmnd[v]));
        },
        None => {
            assert(!single::less(cmnd[j], single::INFINITY));
        },
    }
}

/// What lies behind the valley that was picked does not matter: a deeper valley at twice
/// the lag changes nothing, as long as the values up to and just behind the pick agree.
pub proof fn a_deeper_valley_farther_out_changes_nothing(
    cmnd: Seq<Bits>,
    other: Seq<Bits>,
    lo: int,
    hi: int,
    threshold: Bits,
    v: int,
)
    requires
        0 <= lo <= v < hi < cmnd.len(),
        other.len() == cmnd.len(),
        forall|i: int| lo <= i <= v + 1 ==> #[trigger] cmnd[i] == other[i],
        single::less(cmnd[v], threshold),
        picked(cmnd, lo, hi, threshold, Some(v)),
    ensures
        picked(other, lo, hi, threshold, Some(v)),
{
    assert(!none_below(cmnd, lo, hi, threshold)) by {
        assert(single::less(cmnd[v], threshold));
    }
    let t = choose|t: int| #[trigger]
        first_below(cmnd, lo, hi, threshold, t) && descends_to(cmnd, t, hi, v);
    assert(cmnd[t] == other[t] && cmnd[v] == other[v] && cmnd[v + 1] == other[v + 1]);
    assert forall|j: int| lo <= j < t implies !single::less(#[trigger] other[j], threshold) by {
        assert(cmnd[j] == other[j]);
    }
    assert(first_below(other, lo, hi, threshold, t));
    assert forall|j: int| t <= j < v implies single::less(other[j + 1], #[trigger] other[j]) by {
        assert(cmnd[j] == other[j] && cmnd[j + 1] == other[j + 1]);
    }
    assert(descends_to(other, t, hi, v));
    assert(!none_below(other, lo, hi, threshold)) by {
        assert(single::less(other[t], threshold));
    }
}

/// A lag is moved only to a real valley at a third or a half of it: the new lag lies
/// within two samples, or a fiftieth, of that fraction, is no higher than its neighbours
/// on both sides, looks like a period at all (below 0.45), and is no worse than the limit
/// that the caller has set.
pub proof fn a_lag_moves_only_to_a_valley_at_a_fraction(
    cmnd: Seq<Bits>,
    y: Yin,
    tau: int,
    limit: Bits,
)
    requires
        y.wf(),
        y.tau_min <= tau <= y.tau_max,
        recovered(cmnd, y, tau, limit) != tau,
    ensures
        ({
            let b = recovered(cmnd, y, tau, limit);
            &&& vstd::math::abs(b - tau / 3) <= 2 || 50 * vstd::math::abs(b - tau / 3) <= tau / 3
                || vstd::math::abs(b - tau / 2) <= 2 || 50 * vstd::math::abs(b - tau / 2) <= tau
                / 2
            &&& y.tau_min <= b < y.tau_max
            &&& single::at_most(cmnd[b], cmnd[b - 1])
            &&& single::at_most(cmnd[b], cmnd[b + 1])
            &&& single::less(cmnd[b], 0x3EE6_6666)
            &&& single::at_most(cmnd[b], limit)
        }),
{
    if sub_taken(cmnd, y, tau, 3, limit) {
        lemma_sub_lag_near(cmnd, y, tau, 3);
    } else {
        lemma_sub_lag_near(cmnd, y, tau, 2);
    }
}

proof fn lemma_sub_lag_near(cmnd: Seq<Bits>, y: Yin, tau: int, k: int)
    requires
        y.wf(),
        y.tau_min <= tau <= y.tau_max,
        k == 2 || k == 3,
        tau / k >= y.tau_min,
    ensures
        y.tau_min <= sub_lag(cmnd, y, tau, k) <= y.tau_max,
        vstd::math::abs(sub_lag(cmnd, y, tau, k) - tau / k) <= 2 || 50 * vstd::math::abs(
            sub_lag(cmnd, y, tau, k) - tau / k,
        ) <= tau / k,
{
    let cand = tau / k;
    let radius = later(cand / 50, 2);
    let lo = later(cand - radius, y.tau_min as int);
    let hi = earlier(cand + radius, y.tau_max as int);
    lemma_valley_bounds(cmnd, lo, hi);
}

/// The valley that is tried at a fraction is the lowest there: no lag within two samples
/// of the fraction, among those looked at, has a lower value.
pub proof fn the_lowest_lag_at_the_fraction_is_tried(
    cmnd: Seq<Bits>,
    y: Yin,
    tau: int,
    k: int,
    j: int,
)
    requires
        y.wf(),
        y.tau_min <= tau <= y.tau_max,
        k == 2 || k == 3,
        tau / k >= y.tau_min,
        tau / k - 2 <= j <= tau / k + 2,
        y.tau_min <= j <= y.tau_max,
        forall|i: int|
            y.tau_min <= i <= y.tau_max ==> !single::nan(#[trigger] cmnd[i]),
    ensures
        single::value(cmnd[sub_lag(cmnd, y, tau, k)]) <= single::value(cmnd[j]),
{
    let cand = tau / k;
    let radius = later(cand / 50, 2);
    the_valley_is_the_lowest(
        cmnd,
        later(cand - radius, y.tau_min as int),
        earlier(cand + radius, y.tau_max as int),
        j,
    );
}

/// A third is preferred to a half, and either to the lag itself, wherever it will do: the
/// lag moves to a fraction if the valley there is no higher than its neighbours, looks
/// like a period (below 0.45) and is no worse than the limit.
pub proof fn a_fraction_that_will_do_is_taken(
    cmnd: Seq<Bits>,
    y: Yin,
    tau: int,
    k: int,
    limit: Bits,
)
    requires
        y.wf(),
        y.tau_min <= tau <= y.tau_max,
        k == 3 || k == 2,
        tau / k >= y.tau_min,
        ({
            let b = sub_lag(cmnd, y, tau, k);
            &&& b < y.tau_max
            &&& single::at_most(cmnd[b], cmnd[b - 1])
            &&& single::at_most(cmnd[b], cmnd[b + 1])
            &&& single::less(cmnd[b], 0x3EE6_6666)
            &&& single::at_most(cmnd[b], limit)
        }),
    ensures
        k == 3 ==> recovered(cmnd, y, tau, limit) == sub_lag(cmnd, y, tau, 3),
        k == 2 ==> recovered(cmnd, y, tau, limit) == sub_lag(cmnd, y, tau, 2) || recovered(
            cmnd,
            y,
            tau,
            limit,
        ) == sub_lag(cmnd, y, tau, 3),
{
    lemma_sub_lag_near(cmnd, y, tau, k);
}

/// A sound that is long and loud enough is analysed, and a longer or louder one is
/// too.
pub proof fn enough_sound_is_analysed(y: Yin, len: int, rms: Bits, silence: Bits)
    requires
        y.wf(),
        !single::nan(rms),
        !single::nan(silence),
    ensures
        y.worth(len, rms, silence) <==> len >= 2 * y.tau_max && single::value(rms)
            >= single::value(silence),
{
}

/// An estimate tells the value at its lag as the aperiodicity, and is voiced just where that
/// lies below the loose bound; so what is voiced under one bound is under every higher one.
pub proof fn voiced_is_what_repeats_itself(
    cmnd: Seq<Bits>,
    tau: int,
    f0: Bits,
    loose: Bits,
    looser: Bits,
)
    requires
        !single::nan(cmnd[tau]),
        !single::nan(loose),
        !single::nan(looser),
        single::value(loose) <= single::value(looser),
    ensures
        estimate_at(cmnd, tau, f0, loose).f0_hz == f0,
        estimate_at(cmnd, tau, f0, loose).aperiodicity == cmnd[tau],
        estimate_at(cmnd, tau, f0, loose).is_voiced <==> single::value(cmnd[tau]) < single::value(
            loose,
        ),
        estimate_at(cmnd, tau, f0, loose).is_voiced ==> estimate_at(
            cmnd,
            tau,
            f0,
            looser,
        ).is_voiced,
{
}

} // verus!
