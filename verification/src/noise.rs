//! Tracking of the room's noise floor, and the noise gate that is set by it.
//!
//! The floor is learned from frames that are known not to be voice, and frozen
//! while somebody sings. A floor that cannot be noise disables the noise gate: when
//! in doubt it lets the frame through.
use crate::single::{self, Bits};
use vstd::prelude::*;

verus! {

/// Levels up to 1e-5 are digital silence, not a quiet room.
pub const ABSOLUTE_FLOOR: Bits = 0x3727_C5AC;

/// A floor above 0.02 is a signal that was mistaken for noise.
pub const MAX_PLAUSIBLE_FLOOR: Bits = 0x3CA3_D70A;

/// Forty decibels, the largest margin.
pub const MAX_MARGIN_DB: Bits = 0x4220_0000;

/// The tracker.
#[derive(Clone, Copy, PartialEq, Eq, Structural, Debug)]
pub struct NoiseGate {
    /// The floor estimate, a linear level.
    pub floor: Bits,
    /// By how many decibels a voice has to stand out.
    pub margin_db: Bits,
    /// Samples observed so far.
    pub observed: u64,
    /// Below this many samples the level means nothing yet.
    pub prime_samples: u64,
    /// From this many samples on the noise gate may open.
    pub settle_samples: u64,
    /// Has the observation period given a first value?
    pub seeded: bool,
}

impl NoiseGate {
    /// A gate that has heard nothing yet.
    pub fn new(prime_samples: u64, settle_samples: u64, margin_db: Bits) -> (g: NoiseGate)
        ensures
            g == (NoiseGate {
                floor: ABSOLUTE_FLOOR,
                margin_db,
                observed: 0,
                prime_samples,
                settle_samples,
                seeded: false,
            }),
            g.floor_is_sound(),
    {
        NoiseGate {
            floor: ABSOLUTE_FLOOR,
            margin_db,
            observed: 0,
            prime_samples,
            settle_samples,
            seeded: false,
        }
    }

    /// The floor is a number, and no lower than digital silence.
    pub open spec fn floor_is_sound(&self) -> bool {
        single::at_most(ABSOLUTE_FLOOR, self.floor)
    }

    /// Is the observation period over?
    pub open spec fn has_settled(&self) -> bool {
        self.observed >= self.settle_samples
    }

    /// Is the noise gate in force: settled, and on a floor that can be noise?
    pub open spec fn believable(&self) -> bool {
        self.has_settled() && single::at_most(self.floor, MAX_PLAUSIBLE_FLOOR)
    }

    /// Does a frame of level `rms` pass, against the raised floor `threshold`?
    pub open spec fn opens(&self, rms: Bits, threshold: Bits) -> bool {
        self.has_settled() && (single::less(MAX_PLAUSIBLE_FLOOR, self.floor) || single::less(
            threshold,
            rms,
        ))
    }

    /// Sets the margin, held between 0 and 40 decibels.
    pub fn set_margin_db(&mut self, db: Bits)
        ensures
            *final(self) == (NoiseGate {
                margin_db: single::clamped(db, single::ZERO, MAX_MARGIN_DB),
                ..*old(self)
            }),
    {
        self.margin_db = single::clamp(db, single::ZERO, MAX_MARGIN_DB);
    }

    /// The margin in decibels.
    pub fn margin_db(&self) -> (db: Bits)
        ensures
            db == self.margin_db,
    {
        self.margin_db
    }

    /// The floor estimate.
    pub fn floor(&self) -> (f: Bits)
        ensures
            f == self.floor,
    {
        self.floor
    }

    /// Is the observation period over?
    pub fn settled(&self) -> (r: bool)
        ensures
            r == self.has_settled(),
    {
        self.observed >= self.settle_samples
    }

    /// Can the floor be believed, so that the noise gate is in force?
    pub fn confident(&self) -> (r: bool)
        ensures
            r == self.believable(),
    {
        self.settled() && single::le(self.floor, MAX_PLAUSIBLE_FLOOR)
    }

    /// May a frame of level `rms` go on to pitch detection? `threshold` is the
    /// floor raised by the margin. Shut during the observation period; after
    /// it, open to everything while the floor is implausible.
    pub fn is_open(&self, rms: Bits, threshold: Bits) -> (r: bool)
        ensures
            r == self.opens(rms, threshold),
    {
        if !self.settled() {
            return false;
        }
        if single::lt(MAX_PLAUSIBLE_FLOOR, self.floor) {
            return true;
        }
        single::lt(threshold, rms)
    }

    /// The floor after a frame of level `rms`, given that `observed` samples
    /// have now been seen.
    pub open spec fn floor_after(&self, observed: int, rms: Bits, fallen: Bits, risen: Bits) -> Bits {
        if observed < self.prime_samples {
            self.floor
        } else if observed < self.settle_samples {
            if self.seeded {
                single::smaller(self.floor, rms)
            } else {
                rms
            }
        } else if single::less(rms, self.floor) {
            single::larger(fallen, ABSOLUTE_FLOOR)
        } else {
            single::larger(risen, ABSOLUTE_FLOOR)
        }
    }

    /// The samples seen after `hop_samples` more; the count stops at its limit.
    pub open spec fn observed_after(&self, hop_samples: int) -> int {
        if self.observed + hop_samples > u64::MAX {
            u64::MAX as int
        } else {
            self.observed + hop_samples
        }
    }

    /// The tracker after a frame that is known not to be voice.
    pub open spec fn taught(&self, rms: Bits, hop_samples: int, fallen: Bits, risen: Bits) -> NoiseGate {
        if single::at_most(rms, ABSOLUTE_FLOOR) {
            *self
        } else {
            let observed = self.observed_after(hop_samples);
            NoiseGate {
                observed: observed as u64,
                floor: self.floor_after(observed, rms, fallen, risen),
                seeded: self.seeded || self.prime_samples <= observed < self.settle_samples,
                ..*self
            }
        }
    }

    /// Learns from a frame that is known not to be voice. `fallen` and `risen`
    /// are the floor moved towards `rms` with the fast and with the slow time
    /// constant; the first counts where the level lies below the floor.
    ///
    /// Digital silence teaches nothing. The first samples are ignored, the
    /// observation period keeps the lowest level, and after it the floor moves
    /// smoothly and never below digital silence.
    pub fn update(&mut self, rms: Bits, hop_samples: usize, fallen: Bits, risen: Bits)
        ensures
            *final(self) == old(self).taught(rms, hop_samples as int, fallen, risen),
            // The floor never collapses.
            old(self).floor_is_sound() && !single::nan(rms) ==> final(self).floor_is_sound(),
    {
        if single::le(rms, ABSOLUTE_FLOOR) {
            return;
        }
        self.observed = self.observed.saturating_add(hop_samples as u64);
        if self.observed < self.prime_samples {
            return;
        }
        if !self.settled() {
            self.floor = if self.seeded {
                single::min(self.floor, rms)
            } else {
                rms
            };
            self.seeded = true;
            return;
        }
        let moved: Bits = if single::lt(rms, self.floor) {
            fallen
        } else {
            risen
        };
        self.floor = single::max(moved, ABSOLUTE_FLOOR);
    }

    /// Starts over, after a change of device or settings.
    pub fn reset(&mut self)
        ensures
            *final(self) == (NoiseGate {
                floor: ABSOLUTE_FLOOR,
                observed: 0,
                seeded: false,
                ..*old(self)
            }),
            final(self).floor_is_sound(),
    {
        self.floor = ABSOLUTE_FLOOR;
        self.observed = 0;
        self.seeded = false;
    }
}

/// Digital silence teaches nothing, before or after the observation period.
pub proof fn digital_silence_teaches_nothing(
    g: NoiseGate,
    rms: Bits,
    hop_samples: int,
    fallen: Bits,
    risen: Bits,
)
    requires
        single::at_most(rms, ABSOLUTE_FLOOR),
    ensures
        g.taught(rms, hop_samples, fallen, risen) == g,
{
}

/// The observation period ends once: no frame makes a settled tracker unsettled,
/// and none changes how long the period is or the margin.
pub proof fn settling_is_for_good(
    g: NoiseGate,
    rms: Bits,
    hop_samples: int,
    fallen: Bits,
    risen: Bits,
)
    requires
        0 <= hop_samples,
    ensures
        ({
            let after = g.taught(rms, hop_samples, fallen, risen);
            &&& g.observed <= after.observed
            &&& g.has_settled() ==> after.has_settled()
            &&& g.seeded ==> after.seeded
            &&& after.settle_samples == g.settle_samples
            &&& after.prime_samples == g.prime_samples
            &&& after.margin_db == g.margin_db
        }),
{
}

/// After the observation period the floor stays between where it was and the level
/// heard, as long as the smoothed values do.
pub proof fn the_floor_stays_between_itself_and_the_level(
    g: NoiseGate,
    rms: Bits,
    hop_samples: int,
    fallen: Bits,
    risen: Bits,
)
    requires
        0 <= hop_samples,
        g.has_settled(),
        g.floor_is_sound(),
        !single::nan(rms),
        single::less(rms, g.floor) ==> single::at_most(rms, fallen) && single::at_most(
            fallen,
            g.floor,
        ),
        single::at_most(g.floor, rms) ==> single::at_most(g.floor, risen) && single::at_most(
            risen,
            rms,
        ),
    ensures
        ({
            let after = g.taught(rms, hop_samples, fallen, risen);
            &&& after.floor_is_sound()
            &&& single::at_most(g.floor, rms) ==> single::at_most(g.floor, after.floor)
                && single::at_most(after.floor, rms)
            &&& single::less(rms, g.floor) && !single::at_most(rms, ABSOLUTE_FLOOR)
                ==> single::at_most(rms, after.floor) && single::at_most(after.floor, g.floor)
            &&& single::at_most(rms, ABSOLUTE_FLOOR) ==> after.floor == g.floor
        }),
{
}

/// Nothing passes before the observation period is over, however loud.
pub proof fn nothing_passes_before_settling(g: NoiseGate, rms: Bits, threshold: Bits)
    requires
        !g.has_settled(),
    ensures
        !g.opens(rms, threshold),
{
}

/// Failure falls on the open side: once settled, an implausible floor lets
/// every frame through, whatever its level.
pub proof fn an_implausible_floor_opens_the_gate(g: NoiseGate, rms: Bits, threshold: Bits)
    requires
        g.has_settled(),
        single::less(MAX_PLAUSIBLE_FLOOR, g.floor),
    ensures
        g.opens(rms, threshold),
        !g.believable(),
{
}

/// While the observation period keeps the lowest level, a single quiet moment
/// is enough: the floor ends no higher than any level seen.
pub proof fn the_observation_period_keeps_the_lowest(g: NoiseGate, observed: int, rms: Bits)
    requires
        g.seeded,
        !single::nan(g.floor),
        !single::nan(rms),
        g.prime_samples <= observed < g.settle_samples,
    ensures
        single::at_most(g.floor_after(observed, rms, rms, rms), rms),
        single::at_most(g.floor_after(observed, rms, rms, rms), g.floor),
{
}

/// Once settled on a floor that can be noise, a frame passes just where it is louder than
/// the threshold; so what is louder than a frame that passes passes too.
pub proof fn only_what_stands_out_passes(g: NoiseGate, rms: Bits, threshold: Bits, louder: Bits)
    requires
        g.observed >= g.settle_samples,
        !single::nan(g.floor),
        single::value(g.floor) <= single::value(MAX_PLAUSIBLE_FLOOR),
        !single::nan(rms),
        !single::nan(threshold),
        !single::nan(louder),
        single::value(rms) <= single::value(louder),
    ensures
        g.opens(rms, threshold) <==> single::value(rms) > single::value(threshold),
        g.opens(rms, threshold) ==> g.opens(louder, threshold),
        g.believable(),
{
}

/// The first samples leave the floor alone; the first level of the observation period
/// becomes the floor, whatever stood there before.
pub proof fn the_first_level_becomes_the_floor(
    g: NoiseGate,
    rms: Bits,
    hop_samples: int,
    fallen: Bits,
    risen: Bits,
)
    requires
        !g.seeded,
        hop_samples >= 0,
        !single::at_most(rms, ABSOLUTE_FLOOR),
        g.observed + hop_samples < g.settle_samples,
    ensures
        ({
            let after = g.taught(rms, hop_samples, fallen, risen);
            &&& g.observed + hop_samples < g.prime_samples ==> after.floor == g.floor
                && !after.seeded
            &&& g.observed + hop_samples >= g.prime_samples ==> after.floor == rms && after.seeded
            &&& after.observed == g.observed + hop_samples
        }),
{
}

/// After the observation period a level below the floor pulls it down with the fast time
/// constant alone, and one above it pulls it up with the slow one alone.
pub proof fn falling_is_fast_and_rising_is_slow(
    g: NoiseGate,
    rms: Bits,
    hop_samples: int,
    fallen: Bits,
    risen: Bits,
    other: Bits,
)
    requires
        g.observed >= g.settle_samples,
        g.observed >= g.prime_samples,
        hop_samples >= 0,
        !single::nan(rms),
        !single::nan(g.floor),
        !single::nan(fallen),
        !single::nan(risen),
        single::value(rms) > single::value(ABSOLUTE_FLOOR),
    ensures
        single::value(rms) < single::value(g.floor) ==> g.taught(rms, hop_samples, fallen, risen)
            == g.taught(rms, hop_samples, fallen, other),
        single::value(rms) >= single::value(g.floor) ==> g.taught(rms, hop_samples, fallen, risen)
            == g.taught(rms, hop_samples, other, risen),
        single::value(rms) < single::value(g.floor) && single::value(fallen) > single::value(
            ABSOLUTE_FLOOR,
        ) ==> g.taught(rms, hop_samples, fallen, risen).floor == fallen,
        single::value(rms) >= single::value(g.floor) && single::value(risen) > single::value(
            ABSOLUTE_FLOOR,
        ) ==> g.taught(rms, hop_samples, fallen, risen).floor == risen,
{
}

/// Learning never changes the settings, and the count of samples only grows.
pub proof fn learning_keeps_the_settings(
    g: NoiseGate,
    rms: Bits,
    hop_samples: int,
    fallen: Bits,
    risen: Bits,
)
    requires
        hop_samples >= 0,
    ensures
        ({
            let after = g.taught(rms, hop_samples, fallen, risen);
            &&& after.margin_db == g.margin_db
            &&& after.prime_samples == g.prime_samples
            &&& after.settle_samples == g.settle_samples
            &&& after.observed >= g.observed
            &&& after.observed <= g.observed + hop_samples
            &&& g.seeded ==> after.seeded
        }),
{
}

} // verus!
