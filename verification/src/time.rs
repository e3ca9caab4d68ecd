//! Timeline instants and durations, measured in microseconds, and their
//! conversion to and from sample indices at a given sample rate.

use vstd::prelude::*;

verus! {

/// The fixed sample rate of the audio engine, in samples per second.
pub const SAMPLE_RATE: u32 = 48000;

/// Largest sample rate the conversions accept.
pub const MAX_SAMPLE_RATE: u32 = 1_000_000;

/// Bound on the magnitude of a well-formed instant, in microseconds
/// (about 285 years), leaving headroom for sample-index arithmetic.
pub const MAX_TIME_MICROS: i64 = 0x20_0000_0000_0000;

/// Leading duration of a recording that is muted, and trailing duration that
/// is cut, by the capture post-processor.
pub const TRUNCATION_MICROS: i64 = 100_000;

/// Integer division that rounds towards zero, the rounding used when
/// converting between microseconds and whole sample counts.
pub open spec fn trunc_div(a: int, b: int) -> int {
    if a >= 0 {
        a / b
    } else {
        -((-a) / b)
    }
}

/// The signed sample index corresponding to a signed duration of `us`
/// microseconds at `rate` samples per second.
pub open spec fn spec_audio_idx(us: int, rate: int) -> int {
    trunc_div(us * rate, 1_000_000)
}

/// The duration in microseconds spanned by `idx` samples at `rate` samples
/// per second.
pub open spec fn spec_idx_micros(idx: int, rate: int) -> int {
    trunc_div(idx * 1_000_000, rate)
}

/// An instant on the shared timeline: a signed offset from the global time
/// origin, in microseconds.
#[derive(Clone, Copy, PartialEq, Eq, Structural, Debug)]
pub struct Time {
    micros: i64,
}

/// A signed duration between two instants, in microseconds.
#[derive(Clone, Copy, PartialEq, Eq, Structural, Debug)]
pub struct TimeDiff {
    micros: i64,
}

impl Time {
    /// The instant's offset from the time origin, in microseconds.
    pub closed spec fn spec_micros(self) -> int {
        self.micros as int
    }

    /// A well-formed instant is bounded, so that sample-index arithmetic
    /// over it stays within 64 bits.
    pub open spec fn wf(self) -> bool {
        -MAX_TIME_MICROS <= self.spec_micros() <= MAX_TIME_MICROS
    }

    /// The time origin.
    pub fn zero() -> (t: Time)
        ensures
            t.spec_micros() == 0,
            t.wf(),
    {
        Time { micros: 0 }
    }

    pub fn from_micros(us: i64) -> (t: Time)
        requires
            -MAX_TIME_MICROS <= us <= MAX_TIME_MICROS,
        ensures
            t.spec_micros() == us,
            t.wf(),
    {
        Time { micros: us }
    }

    pub fn micros(self) -> (us: i64)
        ensures
            us == self.spec_micros(),
    {
        self.micros
    }

    /// The signed duration from `other` to `self`.
    pub fn minus(self, other: Time) -> (d: TimeDiff)
        requires
            self.wf(),
            other.wf(),
        ensures
            d.spec_micros() == self.spec_micros() - other.spec_micros(),
    {
        TimeDiff { micros: self.micros - other.micros }
    }

    /// The instant a signed duration after `self`.
    pub fn plus(self, d: TimeDiff) -> (t: Time)
        requires
            -MAX_TIME_MICROS <= self.spec_micros() + d.spec_micros() <= MAX_TIME_MICROS,
        ensures
            t.spec_micros() == self.spec_micros() + d.spec_micros(),
            t.wf(),
    {
        Time { micros: self.micros + d.micros }
    }
}

impl TimeDiff {
    /// The duration in microseconds.
    pub closed spec fn spec_micros(self) -> int {
        self.micros as int
    }

    pub fn from_micros(us: i64) -> (d: TimeDiff)
        ensures
            d.spec_micros() == us,
    {
        TimeDiff { micros: us }
    }

    pub fn micros(self) -> (us: i64)
        ensures
            us == self.spec_micros(),
    {
        self.micros
    }

    /// Converts the duration to a whole number of samples at `sample_rate`,
    /// rounding towards zero.
    pub fn as_audio_idx(self, sample_rate: u32) -> (idx: i64)
        requires
            1 <= sample_rate <= MAX_SAMPLE_RATE,
            -4 * MAX_TIME_MICROS <= self.spec_micros() <= 4 * MAX_TIME_MICROS,
        ensures
            idx == spec_audio_idx(self.spec_micros(), sample_rate as int),
    {
        proof {
            assert(-(4 * MAX_TIME_MICROS as int) * 1_000_000 <= (self.micros as int) * (
            sample_rate as int) <= (4 * MAX_TIME_MICROS as int) * 1_000_000) by (nonlinear_arith)
                requires
                    -4 * (MAX_TIME_MICROS as int) <= self.micros as int <= 4 * (
                    MAX_TIME_MICROS as int),
                    1 <= sample_rate as int <= 1_000_000,
            ;
        }
        let prod: i128 = (self.micros as i128) * (sample_rate as i128);
        let q: i128 = if prod >= 0 {
            proof {
                vstd::arithmetic::div_mod::lemma_div_is_ordered(
                    prod as int,
                    4 * MAX_TIME_MICROS as int * 1_000_000,
                    1_000_000,
                );
                vstd::arithmetic::div_mod::lemma_div_pos_is_pos(prod as int, 1_000_000);
            }
            prod / 1_000_000
        } else {
            proof {
                vstd::arithmetic::div_mod::lemma_div_is_ordered(
                    (-prod) as int,
                    4 * MAX_TIME_MICROS as int * 1_000_000,
                    1_000_000,
                );
                vstd::arithmetic::div_mod::lemma_div_pos_is_pos((-prod) as int, 1_000_000);
            }
            -((-prod) / 1_000_000)
        };
        q as i64
    }

    /// The duration spanned by `idx` samples at `sample_rate`, rounding
    /// towards zero.
    pub fn from_audio_idx(idx: i64, sample_rate: u32) -> (d: TimeDiff)
        requires
            1 <= sample_rate <= MAX_SAMPLE_RATE,
            -0x80_0000_0000 <= idx <= 0x80_0000_0000,
        ensures
            d.spec_micros() == spec_idx_micros(idx as int, sample_rate as int),
    {
        let prod: i128 = (idx as i128) * 1_000_000;
        let q: i128 = if prod >= 0 {
            proof {
                vstd::arithmetic::div_mod::lemma_div_is_ordered(
                    prod as int,
                    0x80_0000_0000int * 1_000_000,
                    sample_rate as int,
                );
                vstd::arithmetic::div_mod::lemma_div_pos_is_pos(prod as int, sample_rate as int);
                vstd::arithmetic::div_mod::lemma_div_is_ordered_by_denominator(
                    prod as int,
                    1,
                    sample_rate as int,
                );
            }
            prod / (sample_rate as i128)
        } else {
            proof {
                vstd::arithmetic::div_mod::lemma_div_is_ordered(
                    (-prod) as int,
                    0x80_0000_0000int * 1_000_000,
                    sample_rate as int,
                );
                vstd::arithmetic::div_mod::lemma_div_pos_is_pos((-prod) as int, sample_rate as int);
                vstd::arithmetic::div_mod::lemma_div_is_ordered_by_denominator(
                    (-prod) as int,
                    1,
                    sample_rate as int,
                );
            }
            -((-prod) / (sample_rate as i128))
        };
        TimeDiff { micros: q as i64 }
    }

    /// The muted leading duration and cut trailing duration applied to a
    /// fresh recording.
    pub fn truncation_len() -> (d: TimeDiff)
        ensures
            d.spec_micros() == TRUNCATION_MICROS,
    {
        TimeDiff { micros: TRUNCATION_MICROS }
    }
}

} // verus!
