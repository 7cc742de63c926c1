//! Receiver counters: true phase to wire counter value.
//!
//! The phase of a clock (frequency offset, drift, wander, jitter) is calculated in
//! floating point outside the library. What is here turns it into the counter that
//! goes on the wire: wrapped at 48 bits, and never stepping back.

use vstd::prelude::*;

use crate::proto::messages::ClockType;
use crate::reading::Reading;

verus! {

/// 2^48: where the counter of a free-running receiver wraps.
pub const WRAP_48: u64 = 0x1_0000_0000_0000;

/// Receiver clock model. The server assumes that free-running clocks are within 100
/// ppm of their frequency; a realistic scenario stays well inside that.
#[derive(Debug, Clone, Copy)]
pub enum ClockSpec {
    /// 12 MHz free-running counter.
    Dump1090 {
        /// Constant frequency offset, ppm.
        offset_ppm: Reading,
        /// Linear frequency drift, ppm per hour.
        drift_ppm_per_hr: Reading,
        /// Gaussian jitter of a measurement, ns.
        jitter_ns: Reading,
        /// Counter value at the start of the scenario.
        start_count: u64,
        /// Frequency random walk, ppm per square root of an hour.
        wander_ppm_sqrt_hr: Reading,
        /// Probability of a counter jump per minute.
        jump_prob_per_min: Reading,
    },
    /// GPS-disciplined 1 GHz counter.
    RadarcapeGps { jitter_ns: Reading },
}

impl ClockSpec {
    /// The clock wanders or jumps.
    pub open spec fn hostile(self) -> bool {
        match self {
            ClockSpec::Dump1090 { wander_ppm_sqrt_hr, jump_prob_per_min, .. } => Reading(0).below(
                wander_ppm_sqrt_hr,
            ) || Reading(0).below(jump_prob_per_min),
            ClockSpec::RadarcapeGps { .. } => false,
        }
    }

    /// The kind of clock that the receiver announces.
    pub open spec fn kind(self) -> ClockType {
        match self {
            ClockSpec::Dump1090 { .. } => ClockType::Dump1090,
            ClockSpec::RadarcapeGps { .. } => ClockType::RadarcapeGps,
        }
    }

    /// Only clocks that wander or jump draw from the stream for that.
    pub fn is_hostile(&self) -> (r: bool)
        ensures
            r == self.hostile(),
    {
        match *self {
            ClockSpec::Dump1090 { wander_ppm_sqrt_hr, jump_prob_per_min, .. } => Reading(0).lt(
                wander_ppm_sqrt_hr,
            ) || Reading(0).lt(jump_prob_per_min),
            ClockSpec::RadarcapeGps { .. } => false,
        }
    }

    pub fn clock_type(&self) -> (r: ClockType)
        ensures
            r == self.kind(),
    {
        match *self {
            ClockSpec::Dump1090 { .. } => ClockType::Dump1090,
            ClockSpec::RadarcapeGps { .. } => ClockType::RadarcapeGps,
        }
    }
}

/// The counter value of a phase before the clamp: wrapped at 48 bits, or held to
/// the range of the counter.
pub open spec fn counted(raw: int, wraps: bool) -> u64 {
    if wraps {
        (raw % 0x1_0000_0000_0000) as u64
    } else if raw < 0 {
        0
    } else if raw > u64::MAX {
        u64::MAX
    } else {
        raw as u64
    }
}

/// A step from `prev` down to `count` is the counter's wrap: `prev` lies within the
/// last second before it.
pub open spec fn is_wrap(prev: u64, count: u64, wraps: bool, freq_hz: u64) -> bool {
    wraps && prev > WRAP_48 - freq_hz && count < prev
}

/// The count after `prev`: one above it, back to zero at 48 bits where the counter
/// wraps.
pub open spec fn stepped(prev: u64, wraps: bool) -> int {
    if wraps {
        (prev + 1) % 0x1_0000_0000_0000
    } else {
        prev + 1
    }
}

/// The counter that goes on the wire: one step above the last one where it would not
/// advance, but never across a wrap.
pub open spec fn clamped(last: Option<u64>, count: u64, wraps: bool, freq_hz: u64) -> int {
    match last {
        Some(prev) => if !is_wrap(prev, count, wraps, freq_hz) && count <= prev {
            stepped(prev, wraps)
        } else {
            count as int
        },
        None => count as int,
    }
}

/// A receiver's counter.
#[derive(Debug)]
pub struct ClockModel {
    freq_hz: u64,
    start_count: u64,
    wraps: bool,
    last: Option<u64>,
}

proof fn lemma_negative_wrap(raw: int, k: int)
    requires
        raw == -(k + 1),
        0 <= k,
    ensures
        raw % 0x1_0000_0000_0000 == 0xFFFF_FFFF_FFFF - k % 0x1_0000_0000_0000,
{
}

impl ClockModel {
    pub closed spec fn frequency(&self) -> u64 {
        self.freq_hz
    }

    pub closed spec fn start(&self) -> u64 {
        self.start_count
    }

    pub closed spec fn wrapping(&self) -> bool {
        self.wraps
    }

    /// The last counter value since the start or the last jump.
    pub closed spec fn last(&self) -> Option<u64> {
        self.last
    }

    pub fn new(spec: &ClockSpec) -> (r: Self)
        ensures
            r.frequency() == spec.kind().hertz(),
            r.wrapping() == (*spec is Dump1090),
            r.start() == (match *spec {
                ClockSpec::Dump1090 { start_count, .. } => start_count,
                ClockSpec::RadarcapeGps { .. } => 0,
            }),
            r.last() is None,
    {
        match *spec {
            ClockSpec::Dump1090 { start_count, .. } => ClockModel {
                freq_hz: ClockType::Dump1090.freq_hz(),
                start_count,
                wraps: true,
                last: None,
            },
            ClockSpec::RadarcapeGps { .. } => ClockModel {
                freq_hz: ClockType::RadarcapeGps.freq_hz(),
                start_count: 0,
                wraps: false,
                last: None,
            },
        }
    }

    /// The name of the clock on the wire.
    pub fn wire_clock_type(spec: &ClockSpec) -> (r: &'static str)
        ensures
            r@ == spec.kind().name(),
    {
        spec.clock_type().wire_name()
    }

    pub fn freq_hz(&self) -> (r: u64)
        ensures
            r == self.frequency(),
    {
        self.freq_hz
    }

    pub fn start_count(&self) -> (r: u64)
        ensures
            r == self.start(),
    {
        self.start_count
    }

    /// The counter cannot advance any further: it stands at its last value and does
    /// not wrap.
    pub fn is_exhausted(&self) -> (r: bool)
        ensures
            r == (!self.wrapping() && self.last() == Some(u64::MAX)),
    {
        match self.last {
            Some(p) => !self.wraps && p == u64::MAX,
            None => false,
        }
    }

    /// A jump of the counter: what follows need not be above what went before.
    pub fn jump(&mut self)
        ensures
            final(self).last() is None,
            final(self).frequency() == old(self).frequency(),
            final(self).start() == old(self).start(),
            final(self).wrapping() == old(self).wrapping(),
    {
        self.last = None;
    }

    /// The counter value of a reception, from its phase in counts. Receptions come
    /// in order of time, so nanosecond jitter must not make the counter step back.
    pub fn count(&mut self, raw: i128) -> (r: u64)
        requires
            old(self).wrapping() || old(self).last() != Some(u64::MAX),
        ensures
            r == clamped(
                old(self).last(),
                counted(raw as int, old(self).wrapping()),
                old(self).wrapping(),
                old(self).frequency(),
            ),
            final(self).last() == Some(r),
            final(self).frequency() == old(self).frequency(),
            final(self).start() == old(self).start(),
            final(self).wrapping() == old(self).wrapping(),
            old(self).wrapping() ==> r < WRAP_48,
    {
        let mut count: u64 = if self.wraps {
            if raw >= 0 {
                (raw as u128 % 0x1_0000_0000_0000) as u64
            } else {
                let k: u128 = (-(raw + 1)) as u128;
                proof {
                    lemma_negative_wrap(raw as int, k as int);
                }
                0xFFFF_FFFF_FFFF - (k % 0x1_0000_0000_0000) as u64
            }
        } else if raw < 0 {
            0
        } else if raw > 0xFFFF_FFFF_FFFF_FFFF {
            u64::MAX
        } else {
            raw as u64
        };
        if let Some(prev) = self.last {
            let wrapped: bool = self.wraps && prev as u128 + self.freq_hz as u128 > WRAP_48 as u128
                && count < prev;
            if !wrapped && count <= prev {
                count = if self.wraps {
                    (prev % WRAP_48 + 1) % WRAP_48
                } else {
                    prev + 1
                };
            }
        }
        self.last = Some(count);
        count
    }
}

/// The counter never steps back: each value is above the last one, unless the
/// counter wraps: from within the last second before 48 bits, or from the last count
/// to zero.
pub proof fn law_counter_advances(prev: u64, raw: int, wraps: bool, freq_hz: u64)
    requires
        wraps ==> prev < WRAP_48,
    ensures
        ({
            let next = clamped(Some(prev), counted(raw, wraps), wraps, freq_hz);
            ||| next > prev
            ||| is_wrap(prev, next as u64, wraps, freq_hz)
            ||| wraps && prev == WRAP_48 - 1 && next == 0
        }),
{
}

/// A free-running counter stays within 48 bits.
pub proof fn law_counter_is_48_bits(last: Option<u64>, raw: int, freq_hz: u64)
    ensures
        0 <= clamped(last, counted(raw, true), true, freq_hz) < WRAP_48,
{
}

/// Jitter never distorts a counter that advances: a value above the last one goes on the wire
/// as it is, and one that is not is moved by no more than it takes to advance by one.
pub proof fn law_counter_is_moved_least(prev: u64, count: u64, wraps: bool, freq_hz: u64)
    ensures
        count > prev ==> clamped(Some(prev), count, wraps, freq_hz) == count,
        clamped(None, count, wraps, freq_hz) == count,
        count <= prev && !wraps ==> clamped(Some(prev), count, wraps, freq_hz) == prev + 1,
        count <= prev && wraps && prev < WRAP_48 - 1 && prev <= WRAP_48 - freq_hz ==> clamped(
            Some(prev),
            count,
            wraps,
            freq_hz,
        ) == prev + 1,
{
}

/// A free-running counter shows its phase modulo 48 bits; a disciplined one shows it as it is,
/// as far as the counter reaches.
pub proof fn law_counter_shows_its_phase(raw: int)
    ensures
        0 <= counted(raw, true) < 0x1_0000_0000_0000,
        (raw - counted(raw, true)) % 0x1_0000_0000_0000 == 0,
        0 <= raw <= u64::MAX ==> counted(raw, false) == raw,
        raw < 0 ==> counted(raw, false) == 0,
        raw > u64::MAX ==> counted(raw, false) == u64::MAX,
{
}

} // verus!
