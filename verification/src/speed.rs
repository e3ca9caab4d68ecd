//! The playback speed factor: a signed, nonzero rational multiplier on the
//! playback rate. The sign selects the direction, the magnitude the rate
//! scale, and a denominator permits fractional (slow-motion) factors with
//! exact arithmetic.

use vstd::prelude::*;

verus! {

/// Largest accepted magnitude of a speed numerator or denominator, so that
/// the mixing arithmetic over sample indices stays within 64 bits.
pub const MAX_SPEED_TERM: i64 = 0x10_0000;

/// A signed, nonzero rational playback speed factor `num / den`.
///
/// Speed `1/1` is normal forward playback, `-1/1` reverse playback,
/// `2/1` double speed, `1/2` half speed.
#[derive(Clone, Copy, PartialEq, Eq, Structural, Debug)]
pub struct Speed {
    num: i64,
    den: i64,
}

impl Speed {
    /// The numerator; its sign is the playback direction.
    pub closed spec fn spec_num(self) -> int {
        self.num as int
    }

    /// The (positive) denominator.
    pub closed spec fn spec_den(self) -> int {
        self.den as int
    }

    /// A well-formed speed is nonzero and bounded.
    pub open spec fn wf(self) -> bool {
        &&& self.spec_num() != 0
        &&& -MAX_SPEED_TERM <= self.spec_num() <= MAX_SPEED_TERM
        &&& 1 <= self.spec_den() <= MAX_SPEED_TERM
    }

    /// The playback direction: `1` forward, `-1` backward.
    pub open spec fn spec_direction(self) -> int {
        if self.spec_num() >= 0 {
            1
        } else {
            -1
        }
    }

    pub fn new(num: i64, den: i64) -> (s: Speed)
        requires
            num != 0,
            -MAX_SPEED_TERM <= num <= MAX_SPEED_TERM,
            1 <= den <= MAX_SPEED_TERM,
        ensures
            s.spec_num() == num,
            s.spec_den() == den,
            s.wf(),
    {
        Speed { num, den }
    }

    /// The whole-number speed `v/1`.
    pub fn from_integer(v: i64) -> (s: Speed)
        requires
            v != 0,
            -MAX_SPEED_TERM <= v <= MAX_SPEED_TERM,
        ensures
            s.spec_num() == v,
            s.spec_den() == 1,
            s.wf(),
    {
        Speed { num: v, den: 1 }
    }

    pub fn num(self) -> (n: i64)
        ensures
            n == self.spec_num(),
    {
        self.num
    }

    pub fn den(self) -> (d: i64)
        ensures
            d == self.spec_den(),
    {
        self.den
    }

    pub fn direction(self) -> (d: i64)
        ensures
            d == self.spec_direction(),
    {
        if self.num >= 0 {
            1
        } else {
            -1
        }
    }
}

} // verus!
