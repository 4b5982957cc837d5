//! Settings of the audio thread, and the names of keys.
use crate::corrector::{OCTAVE_DOWN, OCTAVE_UP};
use crate::scale::{Key, ScaleKind};
use crate::single::{self, Bits};
use crate::text;
use vstd::prelude::*;

verus! {

/// Forty milliseconds, the correction time to begin with.
pub const DEFAULT_RETUNE_MS: Bits = 0x4220_0000;

/// Four, the largest monitor gain.
pub const MAX_GAIN: Bits = 0x4080_0000;

/// The settings.
#[derive(Clone, Copy, PartialEq, Eq, Structural, Debug)]
pub struct Params {
    /// Correction time in milliseconds; zero snaps.
    pub retune_ms: Bits,
    /// The tonic.
    pub tonic: u32,
    /// The number of the scale.
    pub scale: u32,
    /// Is correction switched off?
    pub bypass: bool,
    /// Is the monitor muted?
    pub monitor_muted: bool,
    /// Gain of the monitor.
    pub monitor_gain: Bits,
    /// Transposition in semitones.
    pub pitch_shift: Bits,
    /// Formant shift in semitones.
    pub formant_shift: Bits,
}

impl Default for Params {
    fn default() -> (p: Params)
        ensures
            p == (Params {
                retune_ms: DEFAULT_RETUNE_MS,
                tonic: 0,
                scale: 0,
                bypass: false,
                monitor_muted: false,
                monitor_gain: single::ONE,
                pitch_shift: single::ZERO,
                formant_shift: single::ZERO,
            }),
    {
        Params {
            retune_ms: DEFAULT_RETUNE_MS,
            tonic: 0,
            scale: 0,
            bypass: false,
            monitor_muted: false,
            monitor_gain: single::ONE,
            pitch_shift: single::ZERO,
            formant_shift: single::ZERO,
        }
    }
}

impl Params {
    /// Correction time in milliseconds.
    pub fn retune_ms(&self) -> (v: Bits)
        ensures
            v == self.retune_ms,
    {
        self.retune_ms
    }

    /// Sets the correction time; a negative one counts as zero.
    pub fn set_retune_ms(&mut self, v: Bits)
        ensures
            *final(self) == (Params { retune_ms: single::larger(v, single::ZERO), ..*old(self) }),
    {
        self.retune_ms = single::max(v, single::ZERO);
    }

    /// Gain of the monitor.
    pub fn monitor_gain(&self) -> (v: Bits)
        ensures
            v == self.monitor_gain,
    {
        self.monitor_gain
    }

    /// Sets the gain of the monitor, held between 0 and 4.
    pub fn set_monitor_gain(&mut self, v: Bits)
        ensures
            *final(self) == (Params {
                monitor_gain: single::clamped(v, single::ZERO, MAX_GAIN),
                ..*old(self)
            }),
    {
        self.monitor_gain = single::clamp(v, single::ZERO, MAX_GAIN);
    }

    /// The gain that counts: zero while the monitor is muted.
    pub fn effective_gain(&self) -> (v: Bits)
        ensures
            v == (if self.monitor_muted {
                single::ZERO
            } else {
                self.monitor_gain
            }),
    {
        if self.monitor_muted {
            single::ZERO
        } else {
            self.monitor_gain
        }
    }

    /// Transposition in semitones.
    pub fn pitch_shift(&self) -> (v: Bits)
        ensures
            v == self.pitch_shift,
    {
        self.pitch_shift
    }

    /// Sets the transposition, held within an octave.
    pub fn set_pitch_shift(&mut self, v: Bits)
        ensures
            *final(self) == (Params {
                pitch_shift: single::clamped(v, OCTAVE_DOWN, OCTAVE_UP),
                ..*old(self)
            }),
    {
        self.pitch_shift = single::clamp(v, OCTAVE_DOWN, OCTAVE_UP);
    }

    /// Formant shift in semitones.
    pub fn formant_shift(&self) -> (v: Bits)
        ensures
            v == self.formant_shift,
    {
        self.formant_shift
    }

    /// Sets the formant shift, held within an octave.
    pub fn set_formant_shift(&mut self, v: Bits)
        ensures
            *final(self) == (Params {
                formant_shift: single::clamped(v, OCTAVE_DOWN, OCTAVE_UP),
                ..*old(self)
            }),
    {
        self.formant_shift = single::clamp(v, OCTAVE_DOWN, OCTAVE_UP);
    }

    /// The key that the settings stand for.
    pub open spec fn key_set(&self) -> Key {
        Key { tonic: (self.tonic % 12) as u8, scale: scale_of(self.scale) }
    }

    /// The key.
    pub fn key(&self) -> (k: Key)
        ensures
            k == self.key_set(),
    {
        Key { tonic: (self.tonic % 12) as u8, scale: scale_from_index(self.scale) }
    }

    /// Sets the key; the tonic counts within the octave.
    pub fn set_key(&mut self, key: Key)
        ensures
            *final(self) == (Params {
                tonic: (key.tonic % 12) as u32,
                scale: index_of(key.scale),
                ..*old(self)
            }),
            final(self).key_set() == (Key { tonic: (key.tonic % 12) as u8, scale: key.scale }),
    {
        self.tonic = key.tonic as u32 % 12;
        self.scale = scale_to_index(key.scale);
    }
}

/// The scale of a number. Numbers without one stand for the chromatic scale.
pub open spec fn scale_of(i: u32) -> ScaleKind {
    if i == 1 {
        ScaleKind::Major
    } else if i == 2 {
        ScaleKind::NaturalMinor
    } else if i == 3 {
        ScaleKind::HarmonicMinor
    } else if i == 4 {
        ScaleKind::MajorPentatonic
    } else if i == 5 {
        ScaleKind::MinorPentatonic
    } else {
        ScaleKind::Chromatic
    }
}

/// The number of a scale.
pub open spec fn index_of(s: ScaleKind) -> u32 {
    match s {
        ScaleKind::Chromatic => 0,
        ScaleKind::Major => 1,
        ScaleKind::NaturalMinor => 2,
        ScaleKind::HarmonicMinor => 3,
        ScaleKind::MajorPentatonic => 4,
        ScaleKind::MinorPentatonic => 5,
    }
}

/// The scale of a number.
pub fn scale_from_index(i: u32) -> (s: ScaleKind)
    ensures
        s == scale_of(i),
{
    match i {
        1 => ScaleKind::Major,
        2 => ScaleKind::NaturalMinor,
        3 => ScaleKind::HarmonicMinor,
        4 => ScaleKind::MajorPentatonic,
        5 => ScaleKind::MinorPentatonic,
        _ => ScaleKind::Chromatic,
    }
}

/// The number of a scale.
pub fn scale_to_index(s: ScaleKind) -> (i: u32)
    ensures
        i == index_of(s),
{
    match s {
        ScaleKind::Chromatic => 0,
        ScaleKind::Major => 1,
        ScaleKind::NaturalMinor => 2,
        ScaleKind::HarmonicMinor => 3,
        ScaleKind::MajorPentatonic => 4,
        ScaleKind::MinorPentatonic => 5,
    }
}

/// Every scale comes back from its number.
pub proof fn scales_come_back_from_their_numbers(s: ScaleKind)
    ensures
        scale_of(index_of(s)) == s,
{
}

/// A key of the settings is the key that was set.
pub proof fn the_key_set_is_the_key_read(p: Params, key: Key)
    requires
        key.tonic < 12,
    ensures
        (Params { tonic: (key.tonic % 12) as u32, scale: index_of(key.scale), ..p }).key_set()
            == key,
{
}

/// The semitone that a letter names.
pub open spec fn letter_semitone(c: char) -> Option<int> {
    let l = text::lower(c);
    if l == 'c' {
        Some(0)
    } else if l == 'd' {
        Some(2)
    } else if l == 'e' {
        Some(4)
    } else if l == 'f' {
        Some(5)
    } else if l == 'g' {
        Some(7)
    } else if l == 'a' {
        Some(9)
    } else if l == 'b' {
        Some(11)
    } else {
        None
    }
}

/// What the sign after the letter adds: a sharp one semitone up, a flat eleven,
/// which is one down.
pub open spec fn accidental(c: char) -> int {
    if c == '#' {
        1
    } else if c == 'b' {
        11
    } else {
        0
    }
}

/// The scale that a word names.
pub open spec fn named_scale(w: Seq<char>) -> Option<ScaleKind> {
    if w == ""@ || w == "maj"@ || w == "major"@ {
        Some(ScaleKind::Major)
    } else if w == "m"@ || w == "min"@ || w == "minor"@ {
        Some(ScaleKind::NaturalMinor)
    } else if w == "hm"@ || w == "harmonic"@ {
        Some(ScaleKind::HarmonicMinor)
    } else if w == "pent"@ || w == "majpent"@ {
        Some(ScaleKind::MajorPentatonic)
    } else if w == "minpent"@ {
        Some(ScaleKind::MinorPentatonic)
    } else if w == "chrom"@ || w == "chromatic"@ {
        Some(ScaleKind::Chromatic)
    } else {
        None
    }
}

/// The key that a text names: a letter, a sharp or a flat or neither, and the
/// name of a scale, in any mix of capitals and with white space round it.
pub open spec fn named_key(s: Seq<char>) -> Option<Key> {
    let t = text::trimmed(s);
    if t.len() == 0 {
        None
    } else {
        match letter_semitone(t[0]) {
            None => None,
            Some(n) => {
                let shift = if t.len() > 1 {
                    accidental(t[1])
                } else {
                    0
                };
                let rest = t.skip(
                    if shift == 0 {
                        1
                    } else {
                        2
                    },
                );
                match named_scale(text::lowered(text::trimmed(rest))) {
                    None => None,
                    Some(scale) => Some(Key { tonic: ((n + shift) % 12) as u8, scale }),
                }
            },
        }
    }
}

fn semitone_of(c: char) -> (r: Option<u8>)
    ensures
        r is None <==> letter_semitone(c) is None,
        r matches Some(n) ==> letter_semitone(c) == Some(n as int) && n < 12,
{
    let l: char = text::to_lower(c);
    if l == 'c' {
        Some(0)
    } else if l == 'd' {
        Some(2)
    } else if l == 'e' {
        Some(4)
    } else if l == 'f' {
        Some(5)
    } else if l == 'g' {
        Some(7)
    } else if l == 'a' {
        Some(9)
    } else if l == 'b' {
        Some(11)
    } else {
        None
    }
}

fn scale_named(chars: &[char], a: usize, b: usize) -> (r: Option<ScaleKind>)
    requires
        a <= b <= chars@.len(),
    ensures
        r == named_scale(text::lowered(chars@.subrange(a as int, b as int))),
{
    if text::spells(chars, a, b, "") || text::spells(chars, a, b, "maj") || text::spells(
        chars,
        a,
        b,
        "major",
    ) {
        Some(ScaleKind::Major)
    } else if text::spells(chars, a, b, "m") || text::spells(chars, a, b, "min") || text::spells(
        chars,
        a,
        b,
        "minor",
    ) {
        Some(ScaleKind::NaturalMinor)
    } else if text::spells(chars, a, b, "hm") || text::spells(chars, a, b, "harmonic") {
        Some(ScaleKind::HarmonicMinor)
    } else if text::spells(chars, a, b, "pent") || text::spells(chars, a, b, "majpent") {
        Some(ScaleKind::MajorPentatonic)
    } else if text::spells(chars, a, b, "minpent") {
        Some(ScaleKind::MinorPentatonic)
    } else if text::spells(chars, a, b, "chrom") || text::spells(chars, a, b, "chromatic") {
        Some(ScaleKind::Chromatic)
    } else {
        None
    }
}

/// The key that a text such as "C", "A#", "F#m" or "Dmaj" names.
pub fn parse_key(s: &str) -> (r: Option<Key>)
    ensures
        r == named_key(s@),
{
    let chars: Vec<char> = text::chars_of(s);
    assert(chars@.subrange(0, chars@.len() as int) =~= s@);
    let (a, b): (usize, usize) = text::trim_range(&chars, 0, chars.len());
    let ghost t = text::trimmed(s@);
    assert(t =~= chars@.subrange(a as int, b as int));
    if a == b {
        return None;
    }
    let n: u8 = match semitone_of(chars[a]) {
        Some(n) => n,
        None => {
            return None;
        },
    };
    let mut tonic: u8 = n;
    let mut pos: usize = a + 1;
    if pos < b {
        if chars[pos] == '#' {
            tonic = (n + 1) % 12;
            pos = pos + 1;
        } else if chars[pos] == 'b' {
            tonic = (n + 11) % 12;
            pos = pos + 1;
        }
    }
    assert(t.skip(pos - a) =~= chars@.subrange(pos as int, b as int));
    let (c, d): (usize, usize) = text::trim_range(&chars, pos, b);
    match scale_named(&chars, c, d) {
        None => None,
        Some(scale) => Some(Key { tonic, scale }),
    }
}

/// From each letter to the next it is a whole tone, and from E to F and from B to C half of
/// one; C is the first. Capitals name the same.
pub proof fn letters_lie_on_the_white_keys(c: char, next: char)
    requires
        'a' <= c && c <= 'g',
        next as int == (if c == 'g' {
            'a' as int
        } else {
            c as int + 1
        }),
    ensures
        letter_semitone('c') == Some(0int),
        letter_semitone(c) is Some && 0 <= letter_semitone(c)->0 < 12,
        (letter_semitone(next)->0 - letter_semitone(c)->0) % 12 == (if c == 'e' || c == 'b' {
            1int
        } else {
            2
        }),
{
}

/// No other character names a note, and a capital names the note of its small letter.
pub proof fn only_seven_letters_name_notes(c: char)
    ensures
        letter_semitone(c) is Some <==> ('a' <= c && c <= 'g') || ('A' <= c && c <= 'G'),
        letter_semitone(text::lower(c)) == letter_semitone(c),
{
    text::capitals_become_their_small_letters(c, 'A');
}

/// A sharp raises the tonic by a semitone and a flat lowers it by one, and neither changes
/// the scale.
pub proof fn sharps_raise_and_flats_lower(l: char, rest: Seq<char>)
    requires
        letter_semitone(l) is Some,
        rest.len() > 0 ==> rest[0] != '#' && rest[0] != 'b' && !text::is_space(rest.last()),
    ensures
        ({
            let plain = named_key(seq![l] + rest);
            let sharp = named_key(seq![l, '#'] + rest);
            let flat = named_key(seq![l, 'b'] + rest);
            &&& plain is Some <==> sharp is Some
            &&& plain is Some <==> flat is Some
            &&& plain is Some ==> {
                &&& plain->0.tonic == letter_semitone(l)->0
                &&& sharp->0.tonic == (plain->0.tonic + 1) % 12
                &&& plain->0.tonic == (flat->0.tonic + 1) % 12
                &&& sharp->0.scale == plain->0.scale
                &&& flat->0.scale == plain->0.scale
                &&& flat->0.tonic < 12
            }
        }),
{
    let none = Seq::<char>::empty();
    let a = seq![l] + rest;
    let b = seq![l, '#'] + rest;
    let c = seq![l, 'b'] + rest;
    only_seven_letters_name_notes(l);
    text::what_can_be_seen_is_no_space(l);
    text::trimming_undoes_white_space(none, a, none);
    text::trimming_undoes_white_space(none, b, none);
    text::trimming_undoes_white_space(none, c, none);
    assert(none + a + none =~= a);
    assert(none + b + none =~= b);
    assert(none + c + none =~= c);
    assert(a.skip(1) =~= rest);
    assert(b.skip(2) =~= rest);
    assert(c.skip(2) =~= rest);
    if rest.len() > 0 {
        assert(a[1] == rest[0]);
    }
}

/// White space round the name of a key, and capitals in the name of its scale, do not
/// matter.
pub proof fn keys_are_named_in_any_case(a: Seq<char>, b: Seq<char>)
    ensures
        text::trimmed(a) == text::trimmed(b) ==> named_key(a) == named_key(b),
        named_key(text::trimmed(a)) == named_key(a),
{
    text::trimming_takes_only_the_ends(a);
}

} // verus!
