//! Keys, scales, and the decisions of the retuner.
use crate::single::{self, Bits};
use vstd::prelude::*;

verus! {

/// The names of the twelve semitones, C first.
pub const SEMITONE_NAMES: [&'static str; 12] = [
    "C",
    "C#",
    "D",
    "D#",
    "E",
    "F",
    "F#",
    "G",
    "G#",
    "A",
    "A#",
    "B",
];

/// How far around the rounded pitch a scale note is looked for, in semitones.
pub const REACH: i32 = 6;

/// A scale, as a set of semitones above the tonic.
#[derive(Clone, Copy, PartialEq, Eq, Structural, Debug)]
pub enum ScaleKind {
    Chromatic,
    Major,
    NaturalMinor,
    HarmonicMinor,
    MajorPentatonic,
    MinorPentatonic,
}

/// The semitones of a scale above its tonic, ascending.
pub open spec fn degrees_of(kind: ScaleKind) -> Seq<u8> {
    match kind {
        ScaleKind::Chromatic => seq![0u8, 1, 2, 3, 4, 5, 6, 7, 8, 9, 10, 11],
        ScaleKind::Major => seq![0u8, 2, 4, 5, 7, 9, 11],
        ScaleKind::NaturalMinor => seq![0u8, 2, 3, 5, 7, 8, 10],
        ScaleKind::HarmonicMinor => seq![0u8, 2, 3, 5, 7, 8, 11],
        ScaleKind::MajorPentatonic => seq![0u8, 2, 4, 7, 9],
        ScaleKind::MinorPentatonic => seq![0u8, 3, 5, 7, 10],
    }
}

impl ScaleKind {
    /// The semitones of the scale above its tonic, ascending.
    pub fn degrees(self) -> (d: &'static [u8])
        ensures
            d@ == degrees_of(self),
    {
        match self {
            ScaleKind::Chromatic => &[0, 1, 2, 3, 4, 5, 6, 7, 8, 9, 10, 11],
            ScaleKind::Major => &[0, 2, 4, 5, 7, 9, 11],
            ScaleKind::NaturalMinor => &[0, 2, 3, 5, 7, 8, 10],
            ScaleKind::HarmonicMinor => &[0, 2, 3, 5, 7, 8, 11],
            ScaleKind::MajorPentatonic => &[0, 2, 4, 7, 9],
            ScaleKind::MinorPentatonic => &[0, 3, 5, 7, 10],
        }
    }
}

/// A key: tonic (0 is C) and scale.
#[derive(Clone, Copy, PartialEq, Eq, Structural, Debug)]
pub struct Key {
    pub tonic: u8,
    pub scale: ScaleKind,
}

impl Default for Key {
    fn default() -> (k: Key)
        ensures
            k == (Key { tonic: 0, scale: ScaleKind::Chromatic }),
    {
        Key { tonic: 0, scale: ScaleKind::Chromatic }
    }
}

/// Does the key hold this MIDI note?
pub open spec fn in_key(key: Key, midi: int) -> bool {
    degrees_of(key.scale).contains(((midi - key.tonic) % 12) as u8)
}

/// A candidate note around `center`: number `k` of thirteen.
pub open spec fn candidate(center: int, k: int) -> int {
    center - REACH + k
}

/// The candidate chosen among the first `n`, going upwards: a note of the key
/// takes over where it is closer than the best so far by more than a hair.
/// `away[k]` is the distance of candidate `k`; `edge[k]` is that distance less
/// the hair.
pub open spec fn chosen(key: Key, center: int, away: Seq<Bits>, edge: Seq<Bits>, n: int) -> Option<
    int,
>
    decreases n,
{
    if n <= 0 {
        None
    } else {
        let before = chosen(key, center, away, edge, n - 1);
        let k = n - 1;
        let bar = match before {
            Some(b) => edge[b],
            None => single::INFINITY,
        };
        if in_key(key, candidate(center, k)) && single::less(away[k], bar) {
            Some(k)
        } else {
            before
        }
    }
}

/// The note chosen: the winning candidate, or `center` where none wins.
pub open spec fn chosen_note(key: Key, center: int, away: Seq<Bits>, edge: Seq<Bits>) -> int {
    match chosen(key, center, away, edge, 2 * REACH + 1) {
        Some(k) => candidate(center, k),
        None => center,
    }
}

fn has_degree(degrees: &[u8], rel: u8) -> (r: bool)
    ensures
        r == degrees@.contains(rel),
{
    let mut i: usize = 0;
    while i < degrees.len()
        invariant
            i <= degrees@.len(),
            forall|j: int| 0 <= j < i ==> degrees@[j] != rel,
        decreases degrees@.len() - i,
    {
        if degrees[i] == rel {
            assert(degrees@[i as int] == rel);
            return true;
        }
        i = i + 1;
    }
    false
}

impl Key {
    /// Is this MIDI note in the key?
    pub fn contains_midi(&self, midi: i32) -> (r: bool)
        ensures
            r == in_key(*self, midi as int),
    {
        // Shifted up by a whole number of octaves, so that nothing is negative.
        let up: u64 = (midi as i64 + 2_400_000_240 - self.tonic as i64) as u64;
        let rel: u8 = (up % 12) as u8;
        proof {
            assert((midi - self.tonic + 2_400_000_240) % 12 == (midi - self.tonic) % 12);
        }
        has_degree(self.scale.degrees(), rel)
    }

    /// The note of the key nearest to a pitch that rounds to `center`. The
    /// caller gives the distance of each of the thirteen notes from `center -
    /// 6` to `center + 6`, and the same distances less a hair. A higher note is
    /// taken only where it is closer by more than the hair: a tie goes to the
    /// lower note.
    pub fn nearest_in_scale(&self, center: i32, away: &[Bits], edge: &[Bits]) -> (midi: i32)
        requires
            i32::MIN + REACH <= center <= i32::MAX - REACH,
            away@.len() == 2 * REACH + 1,
            edge@.len() == 2 * REACH + 1,
        ensures
            midi == chosen_note(*self, center as int, away@, edge@),
    {
        let mut best: i32 = center;
        let mut bar: Bits = single::INFINITY;
        let mut k: usize = 0;
        while k < 13
            invariant
                k <= 13,
                i32::MIN + REACH <= center <= i32::MAX - REACH,
                away@.len() == 13,
                edge@.len() == 13,
                match chosen(*self, center as int, away@, edge@, k as int) {
                    Some(b) => 0 <= b < k && best == candidate(center as int, b) && bar == edge@[b],
                    None => best == center && bar == single::INFINITY,
                },
            decreases 13 - k,
        {
            let note: i32 = center - REACH + k as i32;
            if self.contains_midi(note) && single::lt(away[k], bar) {
                best = note;
                bar = edge[k];
            }
            k = k + 1;
        }
        best
    }
}

proof fn lemma_chosen_is_in_key(key: Key, center: int, away: Seq<Bits>, edge: Seq<Bits>, n: int)
    requires
        0 <= n <= away.len(),
    ensures
        chosen(key, center, away, edge, n) matches Some(k) ==> 0 <= k < n && in_key(
            key,
            candidate(center, k),
        ),
    decreases n,
{
    if n > 0 {
        lemma_chosen_is_in_key(key, center, away, edge, n - 1);
    }
}

/// The choice is a note of the key, no other note of the key is closer by more
/// than the hair, and every lower one is clearly farther.
pub proof fn the_nearest_note_wins(
    key: Key,
    center: int,
    away: Seq<Bits>,
    edge: Seq<Bits>,
    n: int,
    j: int,
)
    requires
        away.len() == edge.len(),
        0 <= j < n <= away.len(),
        forall|k: int|
            0 <= k < away.len() ==> single::at_most(#[trigger] edge[k], away[k]) && single::less(
                away[k],
                single::INFINITY,
            ),
        in_key(key, candidate(center, j)),
    ensures
        chosen(key, center, away, edge, n) matches Some(b) && {
            &&& 0 <= b < n
            &&& in_key(key, candidate(center, b))
            &&& !single::less(away[j], edge[b])
            &&& j < b ==> single::less(away[b], away[j])
        },
    decreases n,
{
    lemma_chosen_is_in_key(key, center, away, edge, n);
    lemma_chosen_is_in_key(key, center, away, edge, n - 1);
    assert(single::at_most(edge[j], away[j]));
    if j < n - 1 {
        the_nearest_note_wins(key, center, away, edge, n - 1, j);
        let b = chosen(key, center, away, edge, n - 1)->0;
        assert(single::at_most(edge[b], away[b]));
        assert(single::at_most(edge[n - 1], away[n - 1]));
    } else {
        match chosen(key, center, away, edge, n - 1) {
            Some(b) => {
                assert(single::at_most(edge[b], away[b]));
            },
            None => {},
        }
    }
}

/// The widest step between neighbouring notes of a scale, in semitones.
pub open spec fn widest_step(kind: ScaleKind) -> int {
    match kind {
        ScaleKind::Chromatic => 1,
        ScaleKind::Major => 2,
        ScaleKind::NaturalMinor => 2,
        ScaleKind::HarmonicMinor => 3,
        ScaleKind::MajorPentatonic => 3,
        ScaleKind::MinorPentatonic => 3,
    }
}

proof fn lemma_degrees(kind: ScaleKind, rel: int)
    requires
        0 <= rel < 12,
    ensures
        degrees_of(kind).contains(rel as u8) == match kind {
            ScaleKind::Chromatic => true,
            ScaleKind::Major => rel == 0 || rel == 2 || rel == 4 || rel == 5 || rel == 7 || rel == 9
                || rel == 11,
            ScaleKind::NaturalMinor => rel == 0 || rel == 2 || rel == 3 || rel == 5 || rel == 7
                || rel == 8 || rel == 10,
            ScaleKind::HarmonicMinor => rel == 0 || rel == 2 || rel == 3 || rel == 5 || rel == 7
                || rel == 8 || rel == 11,
            ScaleKind::MajorPentatonic => rel == 0 || rel == 2 || rel == 4 || rel == 7 || rel == 9,
            ScaleKind::MinorPentatonic => rel == 0 || rel == 3 || rel == 5 || rel == 7 || rel == 10,
        },
{
    let d = degrees_of(kind);
    match kind {
        ScaleKind::Chromatic => {
            assert(d[rel] == rel as u8);
        },
        _ => {
            assert(d.len() >= 5);
            assert(d[0] == 0);
            assert(d[1] == d[1] && d[2] == d[2] && d[3] == d[3] && d[4] == d[4]);
            if d.len() == 7 {
                assert(d[5] == d[5] && d[6] == d[6]);
            }
        },
    }
}

/// Among as many neighbouring semitones as the widest step spans, one is in
/// the key.
pub proof fn every_step_is_covered(key: Key, midi: int) -> (m: int)
    ensures
        midi <= m < midi + widest_step(key.scale),
        in_key(key, m),
{
    let r0 = (midi - key.tonic) % 12;
    let r1 = (midi + 1 - key.tonic) % 12;
    let r2 = (midi + 2 - key.tonic) % 12;
    lemma_degrees(key.scale, r0);
    lemma_degrees(key.scale, r1);
    lemma_degrees(key.scale, r2);
    assert(r1 == if r0 == 11 { 0 } else { r0 + 1 });
    assert(r2 == if r1 == 11 { 0 } else { r1 + 1 });
    if in_key(key, midi) {
        midi
    } else if in_key(key, midi + 1) {
        midi + 1
    } else {
        midi + 2
    }
}

/// However far off a pitch is sung, a note of the key lies within half the
/// widest step of it: 50 cents on the chromatic scale, 100 on the major and the
/// natural minor, 150 on the others. `pitch` counts in parts of which `parts`
/// make a semitone.
pub proof fn correction_is_bounded_by_half_a_step(key: Key, pitch: int, parts: int) -> (m: int)
    requires
        parts > 0,
    ensures
        in_key(key, m),
        2 * (m * parts - pitch) <= widest_step(key.scale) * parts,
        2 * (pitch - m * parts) <= widest_step(key.scale) * parts,
{
    let g = widest_step(key.scale);
    let f = pitch / parts;
    vstd::arithmetic::div_mod::lemma_fundamental_div_mod(pitch, parts);
    assert(parts * f <= pitch < parts * f + parts);
    // The highest note of the key at or below the pitch.
    let below = if in_key(key, f) {
        f
    } else if in_key(key, f - 1) {
        f - 1
    } else {
        f - 2
    };
    let _ = every_step_is_covered(key, f - g + 1);
    // The lowest note of the key above it.
    let above = every_step_is_covered(key, below + 1);
    assert(above > f && above - below <= g);
    assert(pitch - below * parts + (above * parts - pitch) <= g * parts && above * parts >= pitch
        && below * parts <= pitch) by (nonlinear_arith)
        requires
            above - below <= g,
            parts > 0,
            parts * f <= pitch < parts * f + parts,
            below <= f,
            above >= f + 1,
    ;
    if 2 * (pitch - below * parts) <= g * parts {
        below
    } else {
        above
    }
}

/// The chromatic scale keeps every semitone.
pub proof fn the_chromatic_scale_keeps_every_semitone(tonic: u8, midi: int)
    ensures
        in_key(Key { tonic, scale: ScaleKind::Chromatic }, midi),
{
    lemma_degrees(ScaleKind::Chromatic, (midi - tonic) % 12);
}

/// A key repeats every octave.
pub proof fn keys_repeat_every_octave(key: Key, midi: int)
    ensures
        in_key(key, midi) == in_key(key, midi + 12),
{
    assert((midi + 12 - key.tonic) % 12 == (midi - key.tonic) % 12);
}

/// What one analysis frame asks of the synthesis.
#[derive(Clone, Copy, PartialEq, Eq, Structural, Debug)]
pub struct RetuneFrame {
    /// Output pitch over input pitch.
    pub ratio: Bits,
    /// The pitch that the singer means, smoothed, in hertz.
    pub intent_hz: Bits,
    /// The note to go to, in hertz.
    pub target_hz: Bits,
    /// The note to go to.
    pub target_midi: i32,
    /// How far the pitch is off the note, in cents.
    pub cents_off: Bits,
    /// Was the correction cut because it was too large?
    pub clamped: bool,
}

/// The state of the retuner. Pitches and ratios are smoothed by the caller; the
/// retuner decides which value counts.
#[derive(Clone, Copy, PartialEq, Eq, Structural, Debug)]
pub struct Retuner {
    pub key: Key,
    pub retune_ms: Bits,
    pub max_correction_cents: Bits,
    pub intent_midi: Bits,
    pub smoothed_log_ratio: Bits,
    pub initialized: bool,
}

/// The frame for a pitch that is not positive.
pub open spec fn idle_of(f0: Bits) -> Option<RetuneFrame> {
    if single::at_most(f0, single::ZERO) {
        Some(
            RetuneFrame {
                ratio: single::ONE,
                intent_hz: single::ZERO,
                target_hz: single::ZERO,
                target_midi: 0,
                cents_off: single::ZERO,
                clamped: false,
            },
        )
    } else {
        None
    }
}

impl Retuner {
    /// A retuner before its first frame.
    pub fn new(key: Key, retune_ms: Bits, max_correction_cents: Bits) -> (r: Retuner)
        ensures
            r == (Retuner {
                key,
                retune_ms,
                max_correction_cents,
                intent_midi: single::ZERO,
                smoothed_log_ratio: single::ZERO,
                initialized: false,
            }),
    {
        Retuner {
            key,
            retune_ms,
            max_correction_cents,
            intent_midi: single::ZERO,
            smoothed_log_ratio: single::ZERO,
            initialized: false,
        }
    }

    /// Changes the key.
    pub fn set_key(&mut self, key: Key)
        ensures
            *final(self) == (Retuner { key, ..*old(self) }),
    {
        self.key = key;
    }

    /// The key.
    pub fn key(&self) -> (k: Key)
        ensures
            k == self.key,
    {
        self.key
    }

    /// Sets the correction time; a negative one counts as zero.
    pub fn set_retune_ms(&mut self, ms: Bits)
        ensures
            *final(self) == (Retuner { retune_ms: single::larger(ms, single::ZERO), ..*old(self) }),
    {
        self.retune_ms = single::max(ms, single::ZERO);
    }

    /// Forgets the phrase that has ended.
    pub fn reset(&mut self)
        ensures
            *final(self) == (Retuner {
                initialized: false,
                smoothed_log_ratio: single::ZERO,
                ..*old(self)
            }),
    {
        self.initialized = false;
        self.smoothed_log_ratio = single::ZERO;
    }

    /// The pitch that the singer means after a frame: the sung pitch at the start of
    /// a phrase, then the smoothed one.
    pub open spec fn intent_after(&self, midi: Bits, smoothed: Bits) -> Bits {
        if self.initialized {
            smoothed
        } else {
            midi
        }
    }

    /// Is a correction too large to be made in full?
    pub open spec fn too_large(&self, needed: Bits) -> bool {
        single::less(self.max_correction_cents, single::low(needed) as Bits)
    }

    /// The correction after a frame: at once where the correction time is zero, else
    /// the smoothed one.
    pub open spec fn ratio_after(&self, target: Bits, smoothed: Bits) -> Bits {
        if single::at_most(self.retune_ms, single::ZERO) {
            target
        } else {
            smoothed
        }
    }

    /// The state after a frame of pitch `f0`. A pitch that is not positive changes
    /// nothing.
    pub open spec fn after(
        &self,
        f0: Bits,
        midi: Bits,
        smoothed_intent: Bits,
        target: Bits,
        smoothed_ratio: Bits,
    ) -> Retuner {
        if idle_of(f0) is Some {
            *self
        } else {
            Retuner {
                intent_midi: self.intent_after(midi, smoothed_intent),
                initialized: true,
                smoothed_log_ratio: self.ratio_after(target, smoothed_ratio),
                ..*self
            }
        }
    }

    /// The frame for a pitch that is not positive: nothing is shifted. `None`
    /// where the pitch is positive, or not a number.
    pub fn idle_frame(f0: Bits) -> (r: Option<RetuneFrame>)
        ensures
            r == idle_of(f0),
    {
        if single::le(f0, single::ZERO) {
            Some(
                RetuneFrame {
                    ratio: single::ONE,
                    intent_hz: single::ZERO,
                    target_hz: single::ZERO,
                    target_midi: 0,
                    cents_off: single::ZERO,
                    clamped: false,
                },
            )
        } else {
            None
        }
    }

    /// Follows the pitch that the singer means: the first frame of a phrase
    /// takes the sung pitch `midi` as it is, later ones take the value
    /// `smoothed` that the caller moved from the last one towards it. Only this
    /// slow pitch is quantized, so a vibrato around it is left alone.
    pub fn follow_intent(&mut self, midi: Bits, smoothed: Bits) -> (intent: Bits)
        ensures
            intent == old(self).intent_after(midi, smoothed),
            *final(self) == (Retuner { intent_midi: intent, initialized: true, ..*old(self) }),
    {
        if !self.initialized {
            self.intent_midi = midi;
            self.initialized = true;
        } else {
            self.intent_midi = smoothed;
        }
        self.intent_midi
    }

    /// Limits a correction: where `needed` is larger than the limit, either
    /// way, only `partial` is applied, and the frame is marked as cut.
    pub fn limit_correction(&self, needed: Bits, partial: Bits) -> (r: (Bits, bool))
        ensures
            r.1 == self.too_large(needed),
            !single::nan(needed) && !single::nan(self.max_correction_cents) ==> (r.1 <==> (
            single::value(needed) > single::value(self.max_correction_cents) || -single::value(
                needed,
            ) > single::value(self.max_correction_cents))),
            r.0 == (if r.1 {
                partial
            } else {
                needed
            }),
    {
        if single::lt(self.max_correction_cents, single::abs(needed)) {
            (partial, true)
        } else {
            (needed, false)
        }
    }

    /// Follows the correction: with a correction time of zero it snaps to
    /// `target`, else it takes the value `smoothed` that the caller moved
    /// towards it.
    pub fn follow_ratio(&mut self, target: Bits, smoothed: Bits) -> (log_ratio: Bits)
        ensures
            log_ratio == old(self).ratio_after(target, smoothed),
            single::less(single::ZERO, old(self).retune_ms) ==> log_ratio == smoothed,
            single::at_most(old(self).retune_ms, single::ZERO) ==> log_ratio == target,
            *final(self) == (Retuner { smoothed_log_ratio: log_ratio, ..*old(self) }),
    {
        if single::le(self.retune_ms, single::ZERO) {
            self.smoothed_log_ratio = target;
        } else {
            self.smoothed_log_ratio = smoothed;
        }
        self.smoothed_log_ratio
    }
}

/// A frame without pitch shifts nothing, is not marked as cut, and leaves the retuner
/// as it was.
pub proof fn a_frame_without_pitch_changes_nothing(
    r: Retuner,
    f0: Bits,
    midi: Bits,
    smoothed_intent: Bits,
    target: Bits,
    smoothed_ratio: Bits,
)
    requires
        single::at_most(f0, single::ZERO),
    ensures
        idle_of(f0) matches Some(frame) && frame.ratio == single::ONE && !frame.clamped
            && frame.target_midi == 0,
        r.after(f0, midi, smoothed_intent, target, smoothed_ratio) == r,
{
}

/// With both times zero the past does not matter: a frame with a pitch gets its whole
/// correction at once, and leaves the same state behind, whatever two retuners of the
/// same settings heard before. An intent time of zero is one with which the smoothed
/// pitch is the sung one.
pub proof fn without_delay_the_past_does_not_matter(
    a: Retuner,
    b: Retuner,
    f0: Bits,
    midi: Bits,
    target: Bits,
    smoothed_a: Bits,
    smoothed_b: Bits,
)
    requires
        !single::at_most(f0, single::ZERO),
        a.key == b.key,
        a.max_correction_cents == b.max_correction_cents,
        a.retune_ms == b.retune_ms,
        single::at_most(a.retune_ms, single::ZERO),
    ensures
        a.after(f0, midi, midi, target, smoothed_a) == b.after(f0, midi, midi, target, smoothed_b),
        a.after(f0, midi, midi, target, smoothed_a).intent_midi == midi,
        a.after(f0, midi, midi, target, smoothed_a).smoothed_log_ratio == target,
        forall|needed: Bits| #[trigger] a.too_large(needed) == b.too_large(needed),
{
}

/// The notes of a scale are few and lie within an octave, the tonic first.
proof fn lemma_degrees_shape(kind: ScaleKind)
    ensures
        degrees_of(kind).len() >= 5,
        degrees_of(kind)[0] == 0,
        forall|i: int| 0 <= i < degrees_of(kind).len() ==> #[trigger] degrees_of(kind)[i] < 12,
{
    let d = degrees_of(kind);
    assert forall|i: int| 0 <= i < d.len() implies #[trigger] d[i] < 12 by {
        match kind {
            ScaleKind::Chromatic => {
                assert(d.len() == 12);
                assert(d[i] == i);
            },
            _ => {},
        }
    }
}

/// The tonic of every key is in the key, in every octave.
pub proof fn the_tonic_is_in_its_key(key: Key, octave: int)
    ensures
        in_key(key, key.tonic + 12 * octave),
{
    lemma_degrees_shape(key.scale);
    every_degree_is_in_the_key(key, octave, 0);
}

/// Every note of the scale, counted up from the tonic, is in the key, in every octave.
pub proof fn every_degree_is_in_the_key(key: Key, octave: int, i: int)
    requires
        0 <= i < degrees_of(key.scale).len(),
    ensures
        in_key(key, key.tonic + 12 * octave + degrees_of(key.scale)[i]),
{
    lemma_degrees_shape(key.scale);
    let d = degrees_of(key.scale)[i];
    let m = key.tonic + 12 * octave + d;
    assert((m - key.tonic) % 12 == d);
    assert(degrees_of(key.scale)[i] == ((m - key.tonic) % 12) as u8);
}

/// And no other note is: a note is in the key exactly where it lies a whole number of
/// octaves away from some degree of the scale, counted up from the tonic.
pub proof fn a_key_holds_its_degrees_and_nothing_else(key: Key, midi: int)
    ensures
        in_key(key, midi) <==> exists|i: int|
            0 <= i < degrees_of(key.scale).len() && (midi - key.tonic
                - #[trigger] degrees_of(key.scale)[i]) % 12 == 0,
{
    let degrees = degrees_of(key.scale);
    lemma_degrees_shape(key.scale);
    let r = (midi - key.tonic) % 12;
    if in_key(key, midi) {
        let i = choose|i: int| 0 <= i < degrees.len() && degrees[i] == r as u8;
        assert((midi - key.tonic - degrees[i]) % 12 == 0);
    }
    if exists|i: int| 0 <= i < degrees.len() && (midi - key.tonic - #[trigger] degrees[i]) % 12 == 0 {
        let i = choose|i: int|
            0 <= i < degrees.len() && (midi - key.tonic - #[trigger] degrees[i]) % 12 == 0;
        assert(degrees[i] == r);
    }
}

/// A key is its scale moved up by its tonic: it holds a note exactly where the same scale
/// on C holds the note that much lower.
pub proof fn a_key_is_its_scale_moved_up(tonic: u8, scale: ScaleKind, midi: int)
    ensures
        in_key(Key { tonic, scale }, midi + tonic) == in_key(Key { tonic: 0, scale }, midi),
{
    assert((midi + tonic - tonic) % 12 == (midi - 0) % 12);
}

/// The major scale is made of fifths: its notes are the tonic, the note a fifth below it
/// and the five that follow upwards in fifths. So is the pentatonic one, of the tonic
/// and the four that follow.
pub proof fn the_major_scales_are_made_of_fifths(tonic: u8, midi: int, fifths: int)
    requires
        -1 <= fifths < 11,
        (midi - tonic - 7 * fifths) % 12 == 0,
    ensures
        in_key(Key { tonic, scale: ScaleKind::Major }, midi) <==> fifths <= 5,
        in_key(Key { tonic, scale: ScaleKind::MajorPentatonic }, midi) <==> 0 <= fifths <= 4,
{
    let r = (midi - tonic) % 12;
    assert(r == (7 * fifths) % 12) by {
        let q = (midi - tonic - 7 * fifths) / 12;
        assert(midi - tonic == 7 * fifths + 12 * q);
    }
    lemma_degrees(ScaleKind::Major, r);
    lemma_degrees(ScaleKind::MajorPentatonic, r);
    assert(fifths == -1 || fifths == 0 || fifths == 1 || fifths == 2 || fifths == 3 || fifths == 4
        || fifths == 5 || fifths == 6 || fifths == 7 || fifths == 8 || fifths == 9 || fifths == 10);
}

/// A natural minor key holds the notes of the major key three semitones higher, and so do
/// the two pentatonic scales. The harmonic minor differs from the natural one in its
/// seventh alone, which is raised to lie a semitone below the tonic.
pub proof fn minor_keys_have_relatives(tonic: u8, midi: int)
    requires
        tonic <= 252,
    ensures
        in_key(Key { tonic, scale: ScaleKind::NaturalMinor }, midi) == in_key(
            Key { tonic: (tonic + 3) as u8, scale: ScaleKind::Major },
            midi,
        ),
        in_key(Key { tonic, scale: ScaleKind::MinorPentatonic }, midi) == in_key(
            Key { tonic: (tonic + 3) as u8, scale: ScaleKind::MajorPentatonic },
            midi,
        ),
        ({
            let below = (midi - tonic) % 12;
            in_key(Key { tonic, scale: ScaleKind::HarmonicMinor }, midi) == (if below == 10 {
                false
            } else if below == 11 {
                true
            } else {
                in_key(Key { tonic, scale: ScaleKind::NaturalMinor }, midi)
            })
        }),
{
    let r = (midi - tonic) % 12;
    let s = (midi - (tonic + 3)) % 12;
    assert(s == (if r >= 3 {
        r - 3
    } else {
        r + 9
    }));
    lemma_degrees(ScaleKind::NaturalMinor, r);
    lemma_degrees(ScaleKind::HarmonicMinor, r);
    lemma_degrees(ScaleKind::MinorPentatonic, r);
    lemma_degrees(ScaleKind::Major, s);
    lemma_degrees(ScaleKind::MajorPentatonic, s);
}

/// The note chosen for a pitch is a note of the key within six semitones of the rounded
/// pitch; no note of the key in that range is closer by more than the hair, and every
/// lower one is farther. `away[k]` is the distance of the note `center - 6 + k`, `edge[k]`
/// that distance less the hair.
pub proof fn no_note_of_the_key_is_closer(
    key: Key,
    center: int,
    away: Seq<Bits>,
    edge: Seq<Bits>,
    other: int,
)
    requires
        away.len() == 13,
        edge.len() == 13,
        forall|k: int|
            0 <= k < 13 ==> single::at_most(#[trigger] edge[k], away[k]) && single::less(
                away[k],
                single::INFINITY,
            ),
        center - 6 <= other <= center + 6,
        in_key(key, other),
    ensures
        ({
            let note = chosen_note(key, center, away, edge);
            &&& center - 6 <= note <= center + 6
            &&& in_key(key, note)
            &&& single::value(edge[note - center + 6]) <= single::value(away[other - center + 6])
            &&& other < note ==> single::value(away[note - center + 6]) < single::value(
                away[other - center + 6],
            )
        }),
{
    let j = other - center + 6;
    assert(candidate(center, j) == other);
    the_nearest_note_wins(key, center, away, edge, 13, j);
    let b = chosen(key, center, away, edge, 13)->0;
    assert(single::at_most(edge[b], away[b]));
    assert(single::at_most(edge[j], away[j]));
}

/// With a correction time above zero the correction glides: after a frame it is the
/// smoothed value, whatever the target is, so that two frames that differ in their
/// target alone leave the same state.
pub proof fn a_correction_time_makes_the_correction_glide(
    r: Retuner,
    f0: Bits,
    midi: Bits,
    smoothed_intent: Bits,
    target: Bits,
    other_target: Bits,
    smoothed: Bits,
)
    requires
        !single::nan(r.retune_ms),
        single::value(r.retune_ms) > 0,
        !single::nan(f0),
        single::value(f0) > 0,
    ensures
        r.ratio_after(target, smoothed) == smoothed,
        r.after(f0, midi, smoothed_intent, target, smoothed).smoothed_log_ratio == smoothed,
        r.after(f0, midi, smoothed_intent, target, smoothed) == r.after(
            f0,
            midi,
            smoothed_intent,
            other_target,
            smoothed,
        ),
{
    single::zero_is_zero();
}

/// A phrase begins on the pitch that is sung, and goes on with the smoothed one: in its
/// first frame nothing of the past counts, in the later ones the sung pitch counts only
/// by way of the smoothed one.
pub proof fn a_phrase_begins_on_the_sung_pitch(
    r: Retuner,
    f0: Bits,
    midi: Bits,
    smoothed: Bits,
    target: Bits,
    smoothed_ratio: Bits,
)
    requires
        !single::nan(f0),
        single::value(f0) > 0,
    ensures
        ({
            let after = r.after(f0, midi, smoothed, target, smoothed_ratio);
            &&& !r.initialized ==> after.intent_midi == midi
            &&& r.initialized ==> after.intent_midi == smoothed
            &&& after.initialized
            &&& after.key == r.key
            &&& after.retune_ms == r.retune_ms
            &&& after.max_correction_cents == r.max_correction_cents
        }),
{
    single::zero_is_zero();
}

/// A correction is too large exactly where its size, either way, exceeds the limit: up
/// and down are treated alike, and a smaller one never is where a larger one is not.
pub proof fn the_limit_is_the_same_up_and_down(r: Retuner, needed: Bits, other: Bits)
    requires
        needed < 0x8000_0000,
        other < 0x8000_0000,
        !single::nan(needed),
        !single::nan(other),
        !single::nan(r.max_correction_cents),
    ensures
        r.too_large((needed + 0x8000_0000) as Bits) == r.too_large(needed),
        r.too_large(needed) <==> single::value(needed) > single::value(r.max_correction_cents),
        needed <= other && r.too_large(needed) ==> r.too_large(other),
{
    single::non_negative_patterns_order_as_integers(needed, other);
}

} // verus!
