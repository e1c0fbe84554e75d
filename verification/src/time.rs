//! Presentation time: timescales, timestamps and durations.
//!
//! A [`Timestamp`] is a point on a track's own timeline, counted in ticks of a
//! [`Timescale`]. Both numbers stay within the QUIC varint range, so every
//! conversion below is free of overflow.
use vstd::arithmetic::div_mod::lemma_div_is_ordered_by_denominator;
use vstd::arithmetic::mul::lemma_mul_inequality;
use vstd::prelude::*;

verus! {

/// The largest number a QUIC varint can carry.
pub const MAX_VARINT: u64 = 0x3fff_ffff_ffff_ffff;

/// Ticks per second of a microsecond timescale.
pub const MICROS_PER_SECOND: u64 = 1_000_000;

/// Ticks per second of a nanosecond timescale.
pub const NANOS_PER_SECOND: u64 = 1_000_000_000;

/// A value left the QUIC varint range, or a timescale was zero.
#[derive(Debug, Clone, Copy, PartialEq, Eq, Structural)]
pub struct TimeOverflow;

/// Ticks per second, from one up to [`MAX_VARINT`].
#[derive(Debug, Clone, Copy, PartialEq, Eq, Hash, Structural)]
pub struct Timescale {
    units: u64,
}

impl Timescale {
    #[verifier::type_invariant]
    spec fn in_range(self) -> bool {
        0 < self.units <= MAX_VARINT
    }

    /// The number of ticks in a second.
    pub closed spec fn rate(self) -> u64 {
        self.units
    }

    /// The timescale with the given number of ticks per second.
    pub closed spec fn of(units: u64) -> Timescale {
        Timescale { units }
    }

    /// A timescale of `units_per_second` ticks.
    pub fn new(units_per_second: u64) -> (r: Result<Timescale, TimeOverflow>)
        ensures
            r == (if 0 < units_per_second <= MAX_VARINT {
                Ok::<Timescale, TimeOverflow>(Timescale::of(units_per_second))
            } else {
                Err::<Timescale, TimeOverflow>(TimeOverflow)
            }),
            r matches Ok(scale) ==> scale.rate() == units_per_second,
    {
        if 0 < units_per_second && units_per_second <= MAX_VARINT {
            Ok(Timescale { units: units_per_second })
        } else {
            Err(TimeOverflow)
        }
    }

    /// The microsecond timescale.
    pub fn micro() -> (r: Timescale)
        ensures
            r == Timescale::of(MICROS_PER_SECOND),
            r.rate() == MICROS_PER_SECOND,
    {
        Timescale { units: MICROS_PER_SECOND }
    }

    /// The number of ticks in a second.
    pub fn as_u64(self) -> (r: u64)
        ensures
            r == self.rate(),
            0 < r <= MAX_VARINT,
    {
        proof {
            use_type_invariant(&self);
        }
        self.units
    }
}

/// A point on a track's timeline.
///
/// Equality compares the value and the scale; order is temporal, see
/// [`Timestamp::before`].
#[derive(Debug, Clone, Copy, PartialEq, Eq, Hash, Structural)]
pub struct Timestamp {
    value: u64,
    scale: Timescale,
}

impl Timestamp {
    #[verifier::type_invariant]
    spec fn in_range(self) -> bool {
        self.value <= MAX_VARINT
    }

    /// The number of ticks.
    pub closed spec fn ticks(self) -> u64 {
        self.value
    }

    /// The number of ticks in a second.
    pub closed spec fn rate(self) -> u64 {
        self.scale.units
    }

    /// The timestamp of `value` ticks at `units` ticks per second.
    pub closed spec fn at(value: u64, units: u64) -> Timestamp {
        Timestamp { value, scale: Timescale { units } }
    }

    /// The timestamp re-expressed at `units` ticks per second, rounded down.
    pub open spec fn scaled(self, units: u64) -> nat {
        (self.ticks() as nat * units as nat) / (self.rate() as nat)
    }

    /// The timestamp re-expressed at `units` ticks per second, where it stays in range.
    ///
    /// One that already has the scale stays as it is.
    pub open spec fn rescaled(self, units: u64) -> Option<Timestamp> {
        if self.rate() == units {
            Some(self)
        } else if self.scaled(units) <= MAX_VARINT {
            Some(Timestamp::at(self.scaled(units) as u64, units))
        } else {
            None
        }
    }

    /// The timestamp in microseconds, rounded down.
    pub open spec fn micros(self) -> nat {
        self.scaled(MICROS_PER_SECOND)
    }

    /// The timestamp in nanoseconds, rounded down.
    pub open spec fn nanos(self) -> nat {
        self.scaled(NANOS_PER_SECOND)
    }

    /// The timestamp as a duration since the start of the timeline.
    pub open spec fn elapsed(self) -> Duration {
        Duration { nanos: self.nanos() as u128 }
    }

    /// Whether `self` lies before `other`.
    ///
    /// Instants compare by cross-multiplying the scales. Two encodings of one
    /// instant are ordered by scale, so that only equal timestamps tie.
    pub open spec fn precedes(self, other: Timestamp) -> bool {
        let lhs = self.ticks() as nat * other.rate() as nat;
        let rhs = other.ticks() as nat * self.rate() as nat;
        lhs < rhs || (lhs == rhs && self.rate() < other.rate())
    }

    /// The earlier of two timestamps.
    pub open spec fn earlier(self, other: Timestamp) -> Timestamp {
        if other.precedes(self) {
            other
        } else {
            self
        }
    }

    /// The later of two timestamps.
    pub open spec fn later(self, other: Timestamp) -> Timestamp {
        if self.precedes(other) {
            other
        } else {
            self
        }
    }

    /// A timestamp of `value` ticks at `scale`.
    pub fn new(value: u64, scale: Timescale) -> (r: Result<Timestamp, TimeOverflow>)
        ensures
            r == (if value <= MAX_VARINT {
                Ok::<Timestamp, TimeOverflow>(Timestamp::at(value, scale.rate()))
            } else {
                Err::<Timestamp, TimeOverflow>(TimeOverflow)
            }),
            r matches Ok(t) ==> t.ticks() == value && t.rate() == scale.rate(),
    {
        if value <= MAX_VARINT {
            Ok(Timestamp { value, scale })
        } else {
            Err(TimeOverflow)
        }
    }

    /// A timestamp of `micros` microseconds.
    pub fn from_micros(micros: u64) -> (r: Result<Timestamp, TimeOverflow>)
        ensures
            r == (if micros <= MAX_VARINT {
                Ok::<Timestamp, TimeOverflow>(Timestamp::at(micros, MICROS_PER_SECOND))
            } else {
                Err::<Timestamp, TimeOverflow>(TimeOverflow)
            }),
            r matches Ok(t) ==> t.ticks() == micros && t.rate() == MICROS_PER_SECOND,
    {
        Timestamp::new(micros, Timescale::micro())
    }

    /// The number of ticks.
    pub fn value(self) -> (r: u64)
        ensures
            r == self.ticks(),
            r <= MAX_VARINT,
    {
        proof {
            use_type_invariant(&self);
        }
        self.value
    }

    /// The scale the ticks are counted at.
    pub fn scale(self) -> (r: Timescale)
        ensures
            r.rate() == self.rate(),
    {
        self.scale
    }

    /// The timestamp re-expressed at `target`, rounded down, as an integer.
    fn as_scale(self, target: u64) -> (r: u128)
        requires
            target <= MAX_VARINT,
        ensures
            r == self.scaled(target),
            r <= MAX_VARINT * target,
            self.rate() > 0,
    {
        let value: u64 = self.value();
        let units: u64 = self.scale.as_u64();
        proof {
            lemma_mul_inequality(value as int, MAX_VARINT as int, target as int);
            assert(MAX_VARINT * target <= MAX_VARINT * MAX_VARINT) by (nonlinear_arith)
                requires
                    target <= MAX_VARINT,
            ;
            assert(MAX_VARINT * MAX_VARINT <= u128::MAX) by (nonlinear_arith);
            assert(value * target >= 0) by (nonlinear_arith)
                requires
                    value >= 0,
                    target >= 0,
            ;
            lemma_div_is_ordered_by_denominator(value * target, 1, units as int);
        }
        let product: u128 = (value as u128) * (target as u128);
        product / (units as u128)
    }

    /// Re-expresses the timestamp at another scale, rounding down.
    ///
    /// A timestamp that already has the scale is returned as it is.
    pub fn convert(self, scale: Timescale) -> (r: Result<Timestamp, TimeOverflow>)
        ensures
            r == (match self.rescaled(scale.rate()) {
                Some(timestamp) => Ok::<Timestamp, TimeOverflow>(timestamp),
                None => Err::<Timestamp, TimeOverflow>(TimeOverflow),
            }),
            r matches Ok(t) ==> t.rate() == scale.rate() && t.ticks() == (if self.rate()
                == scale.rate() {
                self.ticks() as nat
            } else {
                self.scaled(scale.rate())
            }),
    {
        let units: u64 = scale.as_u64();
        if self.scale.as_u64() == units {
            return Ok(self);
        }
        let value: u128 = self.as_scale(units);
        if value <= MAX_VARINT as u128 {
            Timestamp::new(value as u64, scale)
        } else {
            Err(TimeOverflow)
        }
    }

    /// The timestamp in microseconds, rounded down.
    pub fn as_micros(self) -> (r: u128)
        ensures
            r == self.micros(),
            r <= MAX_VARINT * MICROS_PER_SECOND,
    {
        self.as_scale(MICROS_PER_SECOND)
    }

    /// The timestamp as a duration since the start of the timeline.
    pub fn as_duration(self) -> (r: Duration)
        ensures
            r == self.elapsed(),
            r.nanos == self.nanos(),
            r.nanos <= MAX_VARINT * NANOS_PER_SECOND,
    {
        Duration { nanos: self.as_scale(NANOS_PER_SECOND) }
    }

    /// Whether `self` lies before `other`.
    pub fn before(self, other: Timestamp) -> (r: bool)
        ensures
            r == self.precedes(other),
    {
        let value: u64 = self.value();
        let units: u64 = self.scale.as_u64();
        let other_value: u64 = other.value();
        let other_units: u64 = other.scale.as_u64();
        proof {
            assert(MAX_VARINT * MAX_VARINT <= u128::MAX) by (nonlinear_arith);
            assert(0 <= value * other_units <= MAX_VARINT * MAX_VARINT) by (nonlinear_arith)
                requires
                    0 <= value <= MAX_VARINT,
                    0 <= other_units <= MAX_VARINT,
            ;
            assert(0 <= other_value * units <= MAX_VARINT * MAX_VARINT) by (nonlinear_arith)
                requires
                    0 <= other_value <= MAX_VARINT,
                    0 <= units <= MAX_VARINT,
            ;
        }
        let lhs: u128 = (value as u128) * (other_units as u128);
        let rhs: u128 = (other_value as u128) * (units as u128);
        lhs < rhs || (lhs == rhs && units < other_units)
    }

    /// The earlier of two timestamps.
    pub fn min(self, other: Timestamp) -> (r: Timestamp)
        ensures
            r == self.earlier(other),
    {
        if other.before(self) {
            other
        } else {
            self
        }
    }

    /// The later of two timestamps.
    pub fn max(self, other: Timestamp) -> (r: Timestamp)
        ensures
            r == self.later(other),
    {
        if self.before(other) {
            other
        } else {
            self
        }
    }
}

/// A span of time, in nanoseconds.
#[derive(Debug, Clone, Copy, PartialEq, Eq, Hash, Structural)]
pub struct Duration {
    pub nanos: u128,
}

impl Duration {
    /// The span from `other` to `self`, or zero when there is none.
    pub open spec fn since(self, other: Duration) -> Duration {
        Duration {
            nanos: if self.nanos >= other.nanos {
                (self.nanos - other.nanos) as u128
            } else {
                0
            },
        }
    }

    /// The longer of two spans.
    pub open spec fn longest(self, other: Duration) -> Duration {
        if self.nanos >= other.nanos {
            self
        } else {
            other
        }
    }

    /// The shorter of two spans.
    pub open spec fn shortest(self, other: Duration) -> Duration {
        if self.nanos <= other.nanos {
            self
        } else {
            other
        }
    }

    /// A span of `millis` milliseconds.
    pub fn from_millis(millis: u64) -> (r: Duration)
        ensures
            r.nanos == millis * 1_000_000,
    {
        Duration { nanos: (millis as u128) * 1_000_000 }
    }

    /// A span of `secs` seconds.
    pub fn from_secs(secs: u64) -> (r: Duration)
        ensures
            r.nanos == secs * 1_000_000_000,
    {
        Duration { nanos: (secs as u128) * 1_000_000_000 }
    }

    /// The span from `other` to `self`, or zero when there is none.
    pub fn saturating_sub(self, other: Duration) -> (r: Duration)
        ensures
            r == self.since(other),
    {
        Duration { nanos: self.nanos.saturating_sub(other.nanos) }
    }

    /// The longer of two spans.
    pub fn max(self, other: Duration) -> (r: Duration)
        ensures
            r == self.longest(other),
    {
        if self.nanos >= other.nanos {
            self
        } else {
            other
        }
    }

    /// The shorter of two spans.
    pub fn min(self, other: Duration) -> (r: Duration)
        ensures
            r == self.shortest(other),
    {
        if self.nanos <= other.nanos {
            self
        } else {
            other
        }
    }
}

impl Timestamp {
    /// What holds of every timestamp: its ticks and its rate are within range.
    pub open spec fn valid(self) -> bool {
        self.ticks() <= MAX_VARINT && 0 < self.rate() <= MAX_VARINT
    }
}

/// The order of timestamps is strict and total: of two that differ, one precedes
/// the other, and never both.
pub proof fn law_timestamps_are_totally_ordered(a: Timestamp, b: Timestamp)
    requires
        a.valid(),
        b.valid(),
    ensures
        !a.precedes(a),
        !(a.precedes(b) && b.precedes(a)),
        a.precedes(b) || b.precedes(a) || a == b,
{
    let (at, ar) = (a.ticks() as int, a.rate() as int);
    let (bt, br) = (b.ticks() as int, b.rate() as int);
    if at * br == bt * ar && ar == br {
        assert(at == bt) by (nonlinear_arith)
            requires
                at * br == bt * ar,
                ar == br,
                ar > 0,
        ;
    }
}

/// The order of timestamps is transitive, whatever their scales.
pub proof fn law_timestamp_order_is_transitive(a: Timestamp, b: Timestamp, c: Timestamp)
    requires
        a.valid(),
        b.valid(),
        c.valid(),
        a.precedes(b),
        b.precedes(c),
    ensures
        a.precedes(c),
{
    let (at, ar) = (a.ticks() as int, a.rate() as int);
    let (bt, br) = (b.ticks() as int, b.rate() as int);
    let (ct, cr) = (c.ticks() as int, c.rate() as int);
    assert(at * cr <= ct * ar) by (nonlinear_arith)
        requires
            at * br <= bt * ar,
            bt * cr <= ct * br,
            ar > 0,
            br > 0,
            cr > 0,
    ;
    if at * cr == ct * ar {
        assert(at * br == bt * ar) by (nonlinear_arith)
            requires
                at * br <= bt * ar,
                bt * cr <= ct * br,
                at * cr == ct * ar,
                ar > 0,
                br > 0,
                cr > 0,
        ;
        assert(bt * cr == ct * br) by (nonlinear_arith)
            requires
                at * br == bt * ar,
                at * cr == ct * ar,
                ar > 0,
        ;
    }
}

/// Every timestamp lies within what a [`Duration`] can hold, twice over.
pub proof fn lemma_elapsed_fits(timestamp: Timestamp)
    requires
        timestamp.valid(),
    ensures
        timestamp.nanos() <= MAX_VARINT * NANOS_PER_SECOND,
        timestamp.elapsed().nanos == timestamp.nanos(),
{
    let (ticks, rate) = (timestamp.ticks() as nat, timestamp.rate() as nat);
    let nanos = NANOS_PER_SECOND as nat;
    assert((ticks * nanos) / rate <= ticks * nanos) by (nonlinear_arith)
        requires
            rate > 0,
    ;
    assert(ticks * nanos <= MAX_VARINT * NANOS_PER_SECOND) by (nonlinear_arith)
        requires
            ticks <= MAX_VARINT,
            nanos == NANOS_PER_SECOND,
    ;
}

/// A number of microseconds, taken as a timestamp, is that many microseconds.
pub proof fn law_micros_are_micros(micros: u64)
    ensures
        Timestamp::at(micros, MICROS_PER_SECOND).micros() == micros,
        Timestamp::at(micros, MICROS_PER_SECOND).ticks() == micros,
        Timestamp::at(micros, MICROS_PER_SECOND).rate() == MICROS_PER_SECOND,
{
    assert((micros as nat * MICROS_PER_SECOND as nat) / (MICROS_PER_SECOND as nat)
        == micros as nat) by (nonlinear_arith);
}

} // verus!
