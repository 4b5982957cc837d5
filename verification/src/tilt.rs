//! The setting of the spectral tilt.
use crate::single::{self, Bits};
use vstd::prelude::*;

verus! {

/// Four decibels per octave, the steepest tilt either way.
pub const MAX_DB_PER_OCT: Bits = 0x4080_0000;

/// The same downwards.
pub const MIN_DB_PER_OCT: Bits = 0xC080_0000;

/// 0.0001: a tilt flatter than this is none.
pub const FLAT: Bits = 0x38D1_B717;

/// The setting of the tilt.
#[derive(Clone, Copy, PartialEq, Eq, Structural, Debug)]
pub struct Tilt {
    /// Decibels per octave; above zero is brighter.
    pub db_per_oct: Bits,
    /// Too flat to do anything: samples go through bit for bit.
    pub bypass: bool,
}

/// Is a tilt too flat to do anything?
pub open spec fn flat(s: Bits) -> bool {
    single::less(single::low(s) as Bits, FLAT)
}

impl Tilt {
    /// No tilt.
    pub fn new() -> (t: Tilt)
        ensures
            t.db_per_oct == single::ZERO,
            t.bypass,
            t.wf(),
    {
        proof {
            single::non_negative_patterns_order_as_integers(single::ZERO, FLAT);
        }
        Tilt { db_per_oct: single::ZERO, bypass: true }
    }

    /// Samples go through untouched just where the tilt is too flat.
    pub open spec fn wf(&self) -> bool {
        self.bypass == flat(self.db_per_oct)
    }

    /// Sets the tilt, held within its range. Gives whether it changed, and with it
    /// the gains that belong to it.
    pub fn set_db_per_oct(&mut self, s: Bits) -> (changed: bool)
        requires
            old(self).wf(),
        ensures
            final(self).wf(),
            ({
                let held = single::clamped(s, MIN_DB_PER_OCT, MAX_DB_PER_OCT);
                &&& changed == !(!single::nan(held) && !single::nan(old(self).db_per_oct)
                    && single::value(held) == single::value(old(self).db_per_oct))
                &&& final(self).db_per_oct == (if changed {
                    held
                } else {
                    old(self).db_per_oct
                })
            }),
            // What lies in range is what is set.
            !single::nan(s) && single::value(MIN_DB_PER_OCT) <= single::value(s) <= single::value(
                MAX_DB_PER_OCT,
            ) ==> single::value(final(self).db_per_oct) == single::value(s),
    {
        let held: Bits = single::clamp(s, MIN_DB_PER_OCT, MAX_DB_PER_OCT);
        if single::le(held, self.db_per_oct) && single::le(self.db_per_oct, held) {
            return false;
        }
        self.db_per_oct = held;
        self.bypass = single::lt(single::abs(held), FLAT);
        true
    }

    /// The tilt in decibels per octave.
    pub fn db_per_oct(&self) -> (s: Bits)
        ensures
            s == self.db_per_oct,
    {
        self.db_per_oct
    }
}

/// Whether a tilt is too flat does not depend on its direction, no tilt at all is, and what
/// is no steeper than a flat one is flat.
pub proof fn flatness_is_the_same_up_and_down(s: Bits, t: Bits)
    requires
        !single::nan(s),
        !single::nan(t),
        vstd::math::abs(single::value(t)) <= vstd::math::abs(single::value(s)),
    ensures
        flat(single::ZERO),
        flat(s) <==> vstd::math::abs(single::value(s)) < single::value(FLAT),
        flat(s) ==> flat(t),
{
    single::zero_is_zero();
    single::the_size_of_a_number(s);
    single::the_size_of_a_number(t);
    single::non_negative_patterns_order_as_integers(single::ZERO, FLAT);
}

/// Samples go through untouched just where the tilt is flatter than the least one that does
/// anything.
pub proof fn only_a_flat_tilt_is_left_out(t: Tilt)
    requires
        t.wf(),
        !single::nan(t.db_per_oct),
    ensures
        t.bypass <==> vstd::math::abs(single::value(t.db_per_oct)) < single::value(FLAT),
{
    flatness_is_the_same_up_and_down(t.db_per_oct, t.db_per_oct);
}

} // verus!
