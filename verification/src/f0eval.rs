//! Scoring of a pitch tracker against material whose pitch is known at every
//! sample.
//!
//! Right pitches, right pitch classes, octave errors, missed voice and false
//! alarms are counted apart, since they are different failures.
use crate::offline::positive;
use crate::single::{self, Bits};
use crate::sorting;
use vstd::multiset::Multiset;
use vstd::prelude::*;

verus! {

/// Fifty cents: within this a pitch is right.
pub const TOLERANCE: Bits = 0x4248_0000;

/// What a tracker says of one window, which ends before sample `window_end`.
#[derive(Clone, Copy, PartialEq, Eq, Structural, Debug)]
pub struct Frame {
    pub window_end: usize,
    pub f0: Bits,
    pub voiced: bool,
}

/// Counts of everything that a score is made of.
pub struct Tally {
    /// Frames whose pitch was compared.
    pub evaluated: usize,
    /// Frames that are voiced in truth, and those that are not.
    pub voiced_truth: usize,
    pub unvoiced_truth: usize,
    /// Right pitches.
    pub rpa_hit: usize,
    /// Right pitch classes.
    pub rca_hit: usize,
    /// Right pitch classes in the wrong octave.
    pub octave: usize,
    /// Voiced frames that were found, and unvoiced ones taken for voice.
    pub recall_hit: usize,
    pub false_alarm: usize,
    /// How far off the right pitches were, in cents.
    pub errors: Vec<Bits>,
}

/// One past the last sample of a frame's window.
pub open spec fn window_to(f: Frame, total: int) -> int {
    if f.window_end < total {
        f.window_end as int
    } else {
        total
    }
}

/// The first sample of a frame's window.
pub open spec fn window_from(f: Frame, total: int, window: int) -> int {
    if window_to(f, total) < window {
        0
    } else {
        window_to(f, total) - window
    }
}

/// The number of samples with a pitch from `from` up to `to`.
pub open spec fn sounding_in(truth: Seq<Bits>, from: int, to: int) -> nat
    decreases to - from,
{
    if to <= from {
        0
    } else {
        sounding_in(truth, from, to - 1) + (if positive(truth[to - 1]) {
            1nat
        } else {
            0
        })
    }
}

/// Does the pitch jump inside the window? `jumps[i]` says that it jumps from
/// sample `i` to the next.
pub open spec fn jumps_in(jumps: Seq<bool>, from: int, to: int) -> bool {
    exists|i: int| from <= i < to - 1 && #[trigger] jumps[i]
}

/// More than half of the window is voiced.
pub open spec fn truly_voiced(truth: Seq<Bits>, from: int, to: int) -> bool {
    2 * sounding_in(truth, from, to) > to - from
}

/// Is the pitch of this frame compared? Only where there is one right answer: the
/// window is voiced throughout, without a jump, and the tracker gave a pitch.
pub open spec fn compared(truth: Seq<Bits>, jumps: Seq<bool>, f: Frame, window: int) -> bool {
    let to = window_to(f, truth.len() as int);
    let from = window_from(f, truth.len() as int, window);
    &&& from < to
    &&& sounding_in(truth, from, to) == to - from
    &&& !jumps_in(jumps, from, to)
    &&& f.voiced
    &&& !single::at_most(f.f0, single::ZERO)
}

/// Everything that a score is made of. In which order the errors came is not part
/// of it.
pub struct Counts {
    pub evaluated: nat,
    pub voiced_truth: nat,
    pub unvoiced_truth: nat,
    pub rpa_hit: nat,
    pub rca_hit: nat,
    pub octave: nat,
    pub recall_hit: nat,
    pub false_alarm: nat,
    pub errors: Multiset<Bits>,
}

/// Nothing counted yet.
pub open spec fn no_counts() -> Counts {
    Counts {
        evaluated: 0,
        voiced_truth: 0,
        unvoiced_truth: 0,
        rpa_hit: 0,
        rca_hit: 0,
        octave: 0,
        recall_hit: 0,
        false_alarm: 0,
        errors: Multiset::empty(),
    }
}

/// One where it holds, else zero.
pub open spec fn one_if(b: bool) -> nat {
    if b {
        1
    } else {
        0
    }
}

/// Does the frame have a window at all?
pub open spec fn has_window(truth: Seq<Bits>, f: Frame, window: int) -> bool {
    window_from(f, truth.len() as int, window) < window_to(f, truth.len() as int)
}

/// Is the frame voiced in truth?
pub open spec fn voiced_in_truth(truth: Seq<Bits>, f: Frame, window: int) -> bool {
    truly_voiced(
        truth,
        window_from(f, truth.len() as int, window),
        window_to(f, truth.len() as int),
    )
}

/// The counts after a frame has been counted in as voiced or not.
pub open spec fn noted(c: Counts, truth: Seq<Bits>, window: int, f: Frame) -> Counts {
    let there = has_window(truth, f, window);
    let voiced = voiced_in_truth(truth, f, window);
    Counts {
        voiced_truth: c.voiced_truth + one_if(there && voiced),
        unvoiced_truth: c.unvoiced_truth + one_if(there && !voiced),
        recall_hit: c.recall_hit + one_if(there && voiced && f.voiced),
        false_alarm: c.false_alarm + one_if(there && !voiced && f.voiced),
        ..c
    }
}

/// The counts after a pitch has been compared.
pub open spec fn pitched(c: Counts, off: Bits, folded: Bits) -> Counts {
    Counts {
        evaluated: c.evaluated + 1,
        rpa_hit: c.rpa_hit + one_if(single::at_most(off, TOLERANCE)),
        rca_hit: c.rca_hit + one_if(single::at_most(folded, TOLERANCE)),
        octave: c.octave + one_if(
            single::at_most(folded, TOLERANCE) && single::less(TOLERANCE, off),
        ),
        errors: if single::at_most(off, TOLERANCE) {
            c.errors.insert(off)
        } else {
            c.errors
        },
        ..c
    }
}

/// A frame, and how far its pitch is off where it is compared: as it is, and with
/// whole octaves left out.
pub struct Heard {
    pub frame: Frame,
    pub off: Bits,
    pub folded: Bits,
}

/// The counts after one more frame.
pub open spec fn counted(c: Counts, truth: Seq<Bits>, jumps: Seq<bool>, window: int, h: Heard) -> Counts {
    if compared(truth, jumps, h.frame, window) {
        pitched(noted(c, truth, window, h.frame), h.off, h.folded)
    } else {
        noted(c, truth, window, h.frame)
    }
}

/// What a tracker's frames come to.
pub open spec fn score_of(truth: Seq<Bits>, jumps: Seq<bool>, window: int, heard: Seq<Heard>) -> Counts {
    heard.fold_left(
        no_counts(),
        |c: Counts, h: Heard| counted(c, truth, jumps, window, h),
    )
}

/// The order of the frames does not matter: any other order of the same frames
/// comes to the same score.
pub proof fn the_order_of_frames_does_not_matter(
    truth: Seq<Bits>,
    jumps: Seq<bool>,
    window: int,
    a: Seq<Heard>,
    b: Seq<Heard>,
)
    requires
        a.to_multiset() == b.to_multiset(),
    ensures
        score_of(truth, jumps, window, a) == score_of(truth, jumps, window, b),
{
    let step = |c: Counts, h: Heard| counted(c, truth, jumps, window, h);
    assert forall|x: Heard, y: Heard, c: Counts| #[trigger] step(step(c, x), y) == step(
        step(c, y),
        x,
    ) by {
        assert(step(step(c, x), y).errors =~= step(step(c, y), x).errors);
    }
    vstd::seq_lib::lemma_fold_left_permutation(a, b, step, no_counts());
}

/// The number of frames that have a window.
pub open spec fn windows_in(truth: Seq<Bits>, window: int, heard: Seq<Heard>) -> nat
    decreases heard.len(),
{
    if heard.len() == 0 {
        0
    } else {
        windows_in(truth, window, heard.drop_last()) + one_if(
            has_window(truth, heard.last().frame, window),
        )
    }
}

/// A score adds up: every frame with a window is either voiced in truth or not, no
/// more pitches are compared than are voiced, and nothing is found more often than
/// it is there. Where leaving octaves out takes no pitch further off, a right pitch
/// is of the right class too, and the classes exceed the pitches by the octave
/// errors.
pub proof fn a_score_adds_up(truth: Seq<Bits>, jumps: Seq<bool>, window: int, heard: Seq<Heard>)
    requires
        forall|i: int|
            0 <= i < heard.len() && compared(truth, jumps, (#[trigger] heard[i]).frame, window)
                && !single::nan(heard[i].off) ==> single::at_most(heard[i].folded, heard[i].off),
        forall|i: int|
            0 <= i < heard.len() && single::nan((#[trigger] heard[i]).off) ==> single::nan(
                heard[i].folded,
            ),
    ensures
        ({
            let s = score_of(truth, jumps, window, heard);
            &&& s.voiced_truth + s.unvoiced_truth == windows_in(truth, window, heard)
            &&& s.evaluated <= s.voiced_truth
            &&& s.recall_hit <= s.voiced_truth
            &&& s.false_alarm <= s.unvoiced_truth
            &&& s.rca_hit <= s.evaluated
            &&& s.rpa_hit <= s.rca_hit
            &&& s.rca_hit == s.rpa_hit + s.octave
        }),
    decreases heard.len(),
{
    if heard.len() > 0 {
        let front = heard.drop_last();
        assert forall|i: int|
            0 <= i < front.len() && compared(truth, jumps, (#[trigger] front[i]).frame, window)
                && !single::nan(front[i].off) implies single::at_most(
            front[i].folded,
            front[i].off,
        ) by {
            assert(heard[i] == front[i]);
        }
        assert forall|i: int| 0 <= i < front.len() && single::nan((#[trigger] front[i]).off) implies
            single::nan(front[i].folded) by {
            assert(heard[i] == front[i]);
        }
        a_score_adds_up(truth, jumps, window, front);
        let h = heard.last();
        assert(heard[heard.len() - 1] == h);
        let c = score_of(truth, jumps, window, front);
        assert(score_of(truth, jumps, window, heard) == counted(c, truth, jumps, window, h));
        let to = window_to(h.frame, truth.len() as int);
        let from = window_from(h.frame, truth.len() as int, window);
        if compared(truth, jumps, h.frame, window) {
            assert(sounding_in(truth, from, to) == to - from);
        }
    }
}

fn count_sounding(truth: &[Bits], from: usize, to: usize) -> (n: usize)
    requires
        from <= to <= truth@.len(),
    ensures
        n == sounding_in(truth@, from as int, to as int),
        n <= to - from,
{
    let mut n: usize = 0;
    let mut i: usize = from;
    while i < to
        invariant
            from <= i <= to <= truth@.len(),
            n == sounding_in(truth@, from as int, i as int),
            n <= i - from,
        decreases to - i,
    {
        if single::lt(single::ZERO, truth[i]) {
            n = n + 1;
        }
        i = i + 1;
    }
    n
}

fn any_jump(jumps: &Vec<bool>, from: usize, to: usize) -> (r: bool)
    requires
        from <= to,
        to <= jumps@.len() + 1,
    ensures
        r == jumps_in(jumps@, from as int, to as int),
{
    if to == 0 {
        return false;
    }
    let mut i: usize = from;
    while i < to - 1
        invariant
            from <= i,
            0 < to <= jumps@.len() + 1,
            from <= to,
            i <= to - 1 || i == from,
            forall|j: int| from <= j < i ==> !#[trigger] jumps@[j],
        decreases to - i,
    {
        if jumps[i] {
            return true;
        }
        i = i + 1;
    }
    false
}

impl Tally {
    /// Nothing counted yet.
    pub fn new() -> (t: Tally)
        ensures
            t.evaluated == 0,
            t.voiced_truth == 0,
            t.unvoiced_truth == 0,
            t.rpa_hit == 0,
            t.rca_hit == 0,
            t.octave == 0,
            t.recall_hit == 0,
            t.false_alarm == 0,
            t.errors@.len() == 0,
            t.counts() == no_counts(),
            t.sound(),
    {
        let errors: Vec<Bits> = Vec::new();
        proof {
            broadcast use vstd::seq_lib::group_to_multiset_ensures;

            assert(errors@.to_multiset().len() == 0);
            assert(errors@.to_multiset() =~= Multiset::<Bits>::empty());
        }
        Tally {
            evaluated: 0,
            voiced_truth: 0,
            unvoiced_truth: 0,
            rpa_hit: 0,
            rca_hit: 0,
            octave: 0,
            recall_hit: 0,
            false_alarm: 0,
            errors,
        }
    }

    /// Nothing is counted more often than it can be.
    pub open spec fn sound(&self) -> bool {
        &&& self.rpa_hit <= self.evaluated
        &&& self.rca_hit <= self.evaluated
        &&& self.octave <= self.rca_hit
        &&& self.rpa_hit == self.errors@.len()
        &&& self.recall_hit <= self.voiced_truth
        &&& self.false_alarm <= self.unvoiced_truth
        &&& self.evaluated <= self.voiced_truth
        &&& forall|i: int|
            0 <= i < self.errors@.len() ==> single::at_most(#[trigger] self.errors@[i], TOLERANCE)
    }

    /// What has been counted.
    pub open spec fn counts(&self) -> Counts {
        Counts {
            evaluated: self.evaluated as nat,
            voiced_truth: self.voiced_truth as nat,
            unvoiced_truth: self.unvoiced_truth as nat,
            rpa_hit: self.rpa_hit as nat,
            rca_hit: self.rca_hit as nat,
            octave: self.octave as nat,
            recall_hit: self.recall_hit as nat,
            false_alarm: self.false_alarm as nat,
            errors: self.errors@.to_multiset(),
        }
    }

    /// Counts a frame in as voiced or not. Gives the window over which its pitch
    /// is compared, where it is. A frame without a window counts for nothing.
    pub fn take(&mut self, truth: &[Bits], jumps: &Vec<bool>, window: usize, f: Frame) -> (r: Option<
        (usize, usize),
    >)
        requires
            old(self).sound(),
            old(self).voiced_truth < usize::MAX,
            old(self).unvoiced_truth < usize::MAX,
            truth@.len() <= jumps@.len() + 1,
            truth@.len() <= usize::MAX / 2,
        ensures
            r == (if compared(truth@, jumps@, f, window as int) {
                Some(
                    (
                        window_from(f, truth@.len() as int, window as int) as usize,
                        window_to(f, truth@.len() as int) as usize,
                    ),
                )
            } else {
                None
            }),
            final(self).counts() == noted(old(self).counts(), truth@, window as int, f),
            final(self).errors@ == old(self).errors@,
            final(self).sound(),
            r is Some ==> final(self).evaluated < final(self).voiced_truth,
    {
        let total: usize = truth.len();
        let to: usize = if f.window_end < total {
            f.window_end
        } else {
            total
        };
        let from: usize = if to < window {
            0
        } else {
            to - window
        };
        if from >= to {
            return None;
        }
        let n: usize = count_sounding(truth, from, to);
        let voiced: bool = 2 * n > to - from;
        if voiced {
            self.voiced_truth = self.voiced_truth + 1;
            if f.voiced {
                self.recall_hit = self.recall_hit + 1;
            }
        } else {
            self.unvoiced_truth = self.unvoiced_truth + 1;
            if f.voiced {
                self.false_alarm = self.false_alarm + 1;
            }
        }
        if n == to - from && !any_jump(jumps, from, to) && f.voiced && !single::le(
            f.f0,
            single::ZERO,
        ) {
            Some((from, to))
        } else {
            None
        }
    }

    /// Counts a compared pitch in. `off` is how far it is from the true one, in
    /// cents, and `folded` the same with whole octaves left out. Where leaving
    /// octaves out never takes a pitch further off, the right pitch classes are the
    /// right pitches and the octave errors together: the two rates differ by the
    /// octave errors and by nothing else.
    pub fn compare_pitch(&mut self, off: Bits, folded: Bits)
        requires
            old(self).sound(),
            old(self).evaluated < old(self).voiced_truth,
        ensures
            final(self).sound(),
            final(self).counts() == pitched(old(self).counts(), off, folded),
            final(self).errors@ == (if single::at_most(off, TOLERANCE) {
                old(self).errors@.push(off)
            } else {
                old(self).errors@
            }),
            old(self).rca_hit == old(self).rpa_hit + old(self).octave && single::at_most(folded, off)
                ==> final(self).rca_hit == final(self).rpa_hit + final(self).octave,
    {
        proof {
            vstd::seq_lib::to_multiset_build(self.errors@, off);
        }
        self.evaluated = self.evaluated + 1;
        if single::le(off, TOLERANCE) {
            self.rpa_hit = self.rpa_hit + 1;
            self.errors.push(off);
        }
        if single::le(folded, TOLERANCE) {
            self.rca_hit = self.rca_hit + 1;
            if single::lt(TOLERANCE, off) {
                self.octave = self.octave + 1;
            }
        }
    }

    /// The median and the ninetieth percentile of how far off the right pitches
    /// were, both zero where there are none.
    pub fn percentiles(&self) -> (r: (Bits, Bits))
        requires
            self.errors@.len() <= usize::MAX / 9,
        ensures
            self.errors@.len() == 0 ==> r == (single::ZERO, single::ZERO),
            self.errors@.len() > 0 ==> sorting::is_nth(
                self.errors@,
                self.errors@.len() as int / 2,
                r.0,
            ) && sorting::is_nth(self.errors@, self.errors@.len() as int * 9 / 10, r.1),
            self.sound() ==> single::at_most(r.0, r.1) && single::at_most(r.1, TOLERANCE),
    {
        proof {
            single::zero_is_zero();
            single::non_negative_patterns_order_as_integers(single::ZERO, TOLERANCE);
        }
        let n: usize = self.errors.len();
        if n == 0 {
            return (single::ZERO, single::ZERO);
        }
        let median: Bits = sorting::nth(&self.errors, n / 2);
        let high: Bits = sorting::nth(&self.errors, n * 9 / 10);
        proof {
            if self.sound() {
                assert forall|i: int| 0 <= i < n implies !single::nan(
                    #[trigger] self.errors@[i],
                ) by {
                    assert(single::at_most(self.errors@[i], TOLERANCE));
                }
                sorting::later_places_hold_no_smaller_numbers(
                    self.errors@,
                    n as int / 2,
                    n as int * 9 / 10,
                    median,
                    high,
                );
                sorting::ordering_invents_nothing(self.errors@, n as int * 9 / 10, high);
            }
        }
        (median, high)
    }
}

/// The next state of the generator behind the noise of the test material.
pub fn next_noise(state: u64) -> (r: u64)
    ensures
        ({
            let a = state ^ (state << 13u64);
            let b = a ^ (a >> 7u64);
            r == b ^ (b << 17u64)
        }),
{
    let a: u64 = state ^ (state << 13u64);
    let b: u64 = a ^ (a >> 7u64);
    b ^ (b << 17u64)
}

/// The generator never gets stuck at zero.
pub proof fn the_noise_does_not_die_out(state: u64)
    requires
        state != 0,
    ensures
        ({
            let a = state ^ (state << 13u64);
            let b = a ^ (a >> 7u64);
            b ^ (b << 17u64)
        }) != 0,
{
    let a = state ^ (state << 13u64);
    assert(a != 0) by (bit_vector)
        requires
            state != 0,
            a == state ^ (state << 13u64),
    ;
    let b = a ^ (a >> 7u64);
    assert(b != 0) by (bit_vector)
        requires
            a != 0,
            b == a ^ (a >> 7u64),
    ;
    assert(b ^ (b << 17u64) != 0) by (bit_vector)
        requires
            b != 0,
    ;
}

/// A frame's window ends where the frame says, or with the material, and is as long as
/// windows are, or begins with the material.
pub proof fn a_window_lies_before_its_end(f: Frame, total: int, window: int)
    requires
        total >= 0,
        window >= 0,
    ensures
        f.window_end <= total ==> window_to(f, total) == f.window_end,
        f.window_end >= total ==> window_to(f, total) == total,
        0 <= window_from(f, total, window) <= window_to(f, total) <= total,
        window_to(f, total) - window_from(f, total, window) <= window,
        window_to(f, total) - window_from(f, total, window) == window || window_from(
            f,
            total,
            window,
        ) == 0,
{
}

/// Samples with a pitch are counted one by one: a stretch has as many as its two parts.
pub proof fn sounding_samples_add_up(truth: Seq<Bits>, from: int, mid: int, to: int)
    requires
        from <= mid <= to,
    ensures
        sounding_in(truth, from, to) == sounding_in(truth, from, mid) + sounding_in(truth, mid, to),
        sounding_in(truth, from, from) == 0,
        !single::nan(truth[from]) && single::value(truth[from]) > 0 ==> sounding_in(
            truth,
            from,
            from + 1,
        ) == 1,
        single::nan(truth[from]) || single::value(truth[from]) <= 0 ==> sounding_in(
            truth,
            from,
            from + 1,
        ) == 0,
    decreases to - mid,
{
    single::zero_is_zero();
    assert(sounding_in(truth, from, from) == 0);
    if mid < to {
        sounding_samples_add_up(truth, from, mid, to - 1);
    }
}

proof fn lemma_sounding_bound(truth: Seq<Bits>, from: int, to: int)
    requires
        from <= to,
    ensures
        sounding_in(truth, from, to) <= to - from,
        sounding_in(truth, from, to) == to - from <==> forall|i: int|
            from <= i < to ==> positive(#[trigger] truth[i]),
    decreases to - from,
{
    if from < to {
        lemma_sounding_bound(truth, from, to - 1);
        if sounding_in(truth, from, to) == to - from {
            assert(positive(truth[to - 1]));
        }
        if forall|i: int| from <= i < to ==> positive(#[trigger] truth[i]) {
            assert(positive(truth[to - 1]));
        }
    }
}

proof fn lemma_more_sounds(a: Seq<Bits>, b: Seq<Bits>, from: int, to: int)
    requires
        forall|i: int| from <= i < to && positive(#[trigger] a[i]) ==> positive(b[i]),
    ensures
        sounding_in(a, from, to) <= sounding_in(b, from, to),
    decreases to - from,
{
    if from < to {
        lemma_more_sounds(a, b, from, to - 1);
        assert(positive(a[to - 1]) ==> positive(b[to - 1]));
    }
}

/// The majority decides whether a stretch is voiced: a stretch that sounds throughout is, a
/// silent one or one that sounds for just half of it is not, and what sounds wherever a
/// voiced stretch does is voiced too.
pub proof fn the_majority_of_samples_decides(a: Seq<Bits>, b: Seq<Bits>, from: int, to: int)
    requires
        from < to,
    ensures
        (forall|i: int| from <= i < to ==> positive(#[trigger] a[i])) ==> truly_voiced(a, from, to),
        (forall|i: int| from <= i < to ==> !positive(#[trigger] a[i])) ==> !truly_voiced(
            a,
            from,
            to,
        ),
        2 * sounding_in(a, from, to) == to - from ==> !truly_voiced(a, from, to),
        2 * sounding_in(a, from, to) == to - from + 1 ==> truly_voiced(a, from, to),
        (forall|i: int| from <= i < to && positive(#[trigger] a[i]) ==> positive(b[i]))
            && truly_voiced(a, from, to) ==> truly_voiced(b, from, to),
{
    lemma_sounding_bound(a, from, to);
    if forall|i: int| from <= i < to ==> !positive(#[trigger] a[i]) {
        lemma_no_sound(a, from, to);
    }
    if forall|i: int| from <= i < to && positive(#[trigger] a[i]) ==> positive(b[i]) {
        lemma_more_sounds(a, b, from, to);
    }
}

proof fn lemma_no_sound(a: Seq<Bits>, from: int, to: int)
    requires
        forall|i: int| from <= i < to ==> !positive(#[trigger] a[i]),
    ensures
        sounding_in(a, from, to) == 0,
    decreases to - from,
{
    if from < to {
        lemma_no_sound(a, from, to - 1);
        assert(!positive(a[to - 1]));
    }
}

/// A pitch is compared just where there is one right answer: every sample of the window has
/// a pitch, none jumps to the next inside it, and the tracker gave a pitch.
pub proof fn only_clear_frames_are_compared(
    truth: Seq<Bits>,
    jumps: Seq<bool>,
    f: Frame,
    window: int,
)
    requires
        !single::nan(f.f0),
    ensures
        ({
            let to = window_to(f, truth.len() as int);
            let from = window_from(f, truth.len() as int, window);
            compared(truth, jumps, f, window) <==> from < to && f.voiced && single::value(f.f0) > 0
                && (forall|i: int|
                from <= i < to ==> !single::nan(#[trigger] truth[i]) && single::value(truth[i]) > 0)
                && (forall|i: int| from <= i < to - 1 ==> !#[trigger] jumps[i])
        }),
{
    single::zero_is_zero();
    let to = window_to(f, truth.len() as int);
    let from = window_from(f, truth.len() as int, window);
    if from < to {
        lemma_sounding_bound(truth, from, to);
        assert(forall|i: int|
            (#[trigger] positive(truth[i])) == (!single::nan(truth[i]) && single::value(truth[i]) > 0));
        if forall|i: int|
            from <= i < to ==> !single::nan(#[trigger] truth[i]) && single::value(truth[i]) > 0 {
            assert forall|i: int| from <= i < to implies positive(#[trigger] truth[i]) by {}
        }
        if forall|i: int| from <= i < to ==> positive(#[trigger] truth[i]) {
            assert forall|i: int| from <= i < to implies !single::nan(#[trigger] truth[i])
                && single::value(truth[i]) > 0 by {
                assert(positive(truth[i]));
            }
        }
    }
}

/// A right pitch counts as a pitch and as a class, one that is right but for octaves as a
/// class and as an octave error, and any other as neither. Only right pitches are kept for
/// the average.
pub proof fn every_compared_pitch_is_one_of_three(c: Counts, off: Bits, folded: Bits)
    requires
        !single::nan(off),
        !single::nan(folded),
        single::value(folded) <= single::value(off),
    ensures
        ({
            let p = pitched(c, off, folded);
            let t = single::value(TOLERANCE);
            &&& p.evaluated == c.evaluated + 1
            &&& single::value(off) <= t ==> p.rpa_hit == c.rpa_hit + 1 && p.rca_hit == c.rca_hit + 1
                && p.octave == c.octave && p.errors == c.errors.insert(off)
            &&& single::value(folded) <= t < single::value(off) ==> p.rpa_hit == c.rpa_hit
                && p.rca_hit == c.rca_hit + 1 && p.octave == c.octave + 1 && p.errors == c.errors
            &&& t < single::value(folded) ==> p.rpa_hit == c.rpa_hit && p.rca_hit == c.rca_hit
                && p.octave == c.octave && p.errors == c.errors
            &&& p.voiced_truth == c.voiced_truth && p.unvoiced_truth == c.unvoiced_truth
            &&& p.recall_hit == c.recall_hit && p.false_alarm == c.false_alarm
        }),
{
}

/// A frame that says the truth about voice is neither missed nor a false alarm, and a frame
/// without a window is not counted at all.
pub proof fn voice_is_found_or_missed(c: Counts, truth: Seq<Bits>, window: int, f: Frame)
    ensures
        ({
            let n = noted(c, truth, window, f);
            let there = window_from(f, truth.len() as int, window) < window_to(f, truth.len() as int);
            let missed = (n.voiced_truth - n.recall_hit) - (c.voiced_truth - c.recall_hit);
            let alarms = n.false_alarm - c.false_alarm;
            &&& !there ==> n == c
            &&& there ==> n.voiced_truth + n.unvoiced_truth == c.voiced_truth + c.unvoiced_truth + 1
            &&& there && f.voiced ==> missed == 0
            &&& there && !f.voiced ==> alarms == 0
            &&& there && f.voiced == voiced_in_truth(truth, f, window) ==> missed == 0 && alarms == 0
            &&& there && f.voiced != voiced_in_truth(truth, f, window) ==> missed + alarms == 1
            &&& n.evaluated == c.evaluated && n.errors == c.errors
        }),
{
}

} // verus!
