//! Points in time, as seconds and nanoseconds since the start of 1970 (UTC).

use vstd::prelude::*;

verus! {

/// The first second of the year 1.
pub const MIN_SECS: i64 = -62_135_596_800;

/// The last second of the year 9999.
pub const MAX_SECS: i64 = 253_402_300_799;

/// Nanoseconds in one second.
pub const NANOS_PER_SEC: u32 = 1_000_000_000;

/// What a [`Timestamp`] stands for: whole seconds since the start of 1970 and
/// the nanoseconds after them.
pub struct Instant {
    pub secs: int,
    pub nanos: int,
}

/// The instants a [`Timestamp`] can hold: within the years 1 to 9999, with the
/// nanoseconds below one second, or below two in the last second of a minute
/// (a leap second).
pub open spec fn valid_instant(i: Instant) -> bool {
    &&& MIN_SECS <= i.secs <= MAX_SECS
    &&& 0 <= i.nanos < 2 * NANOS_PER_SEC
    &&& (i.nanos >= NANOS_PER_SEC ==> i.secs % 60 == 59)
}

/// The nanoseconds from `from` to `to`, by their seconds and nanoseconds;
/// negative if `to` is the earlier one.
pub open spec fn nanos_between(from: Instant, to: Instant) -> int {
    (to.secs - from.secs) * NANOS_PER_SEC + (to.nanos - from.nanos)
}

/// The nearest valid instant to a clock reading: the seconds are brought into
/// range, and nanoseconds that the second cannot carry become its last one.
pub open spec fn nearest_instant(secs: int, nanos: int) -> Instant {
    let s = if secs < MIN_SECS {
        MIN_SECS as int
    } else if secs > MAX_SECS {
        MAX_SECS as int
    } else {
        secs
    };
    if valid_instant(Instant { secs: s, nanos }) {
        Instant { secs: s, nanos }
    } else {
        Instant { secs: s, nanos: NANOS_PER_SEC - 1 }
    }
}

/// The text that `chrono` prints for the instant of `secs` and `nanos`: date,
/// time of day with the fraction of the second if there is one, and `UTC`.
pub uninterp spec fn utc_text(secs: int, nanos: int) -> Seq<char>;

/// Reads the system clock with `chrono::Utc::now` and hands back the seconds
/// since the start of 1970 and the nanoseconds after them. Nothing is claimed
/// of the reading. `chrono` panics where the clock stands before 1970.
#[verifier::external_body]
fn clock_reading() -> (r: (i64, u32)) {
    let t = chrono::Utc::now();
    (t.timestamp(), t.timestamp_subsec_nanos())
}

/// Prints an instant as `chrono` displays a `DateTime<Utc>`. The instant is
/// rebuilt with `DateTime::from_timestamp`, which accepts every valid instant;
/// the text depends on the instant alone and is known here only by its name.
#[verifier::external_body]
fn display_text(secs: i64, nanos: u32) -> (s: String)
    requires
        valid_instant(Instant { secs: secs as int, nanos: nanos as int }),
    ensures
        s@ == utc_text(secs as int, nanos as int),
{
    chrono::DateTime::<chrono::Utc>::from_timestamp(secs, nanos).unwrap().to_string()
}

/// A point in time between the years 1 and 9999.
#[derive(Clone, Copy, Debug, PartialEq, Eq, Structural)]
pub struct Timestamp {
    secs: i64,
    nanos: u32,
}

impl View for Timestamp {
    type V = Instant;

    closed spec fn view(&self) -> Instant {
        Instant { secs: self.secs as int, nanos: self.nanos as int }
    }
}

impl Timestamp {
    #[verifier::type_invariant]
    spec fn inv(self) -> bool {
        valid_instant(self@)
    }

    /// The timestamp of `secs` seconds and `nanos` nanoseconds since the start
    /// of 1970, if that is a valid instant.
    pub fn new(secs: i64, nanos: u32) -> (r: Option<Timestamp>)
        ensures
            r is Some <==> valid_instant(Instant { secs: secs as int, nanos: nanos as int }),
            r matches Some(t) ==> t@ == (Instant { secs: secs as int, nanos: nanos as int }),
    {
        if secs < MIN_SECS || secs > MAX_SECS || nanos >= 2 * NANOS_PER_SEC {
            return None;
        }
        if nanos >= NANOS_PER_SEC && (secs - MIN_SECS) % 60 != 59 {
            return None;
        }
        Some(Timestamp { secs, nanos })
    }

    /// The valid timestamp nearest to a reading of `secs` and `nanos`.
    pub fn saturating(secs: i64, nanos: u32) -> (t: Timestamp)
        ensures
            t@ == nearest_instant(secs as int, nanos as int),
            valid_instant(t@),
    {
        let s: i64 = if secs < MIN_SECS {
            MIN_SECS
        } else if secs > MAX_SECS {
            MAX_SECS
        } else {
            secs
        };
        match Timestamp::new(s, nanos) {
            Some(t) => t,
            None => Timestamp { secs: s, nanos: NANOS_PER_SEC - 1 },
        }
    }

    /// The time on the system clock, or the valid timestamp nearest to it.
    pub fn now() -> (t: Timestamp)
        ensures
            valid_instant(t@),
    {
        let (secs, nanos) = clock_reading();
        Timestamp::saturating(secs, nanos)
    }

    /// The timestamp as text, the form by which records are ordered in time.
    pub fn text(&self) -> (s: String)
        ensures
            s@ == utc_text(self@.secs, self@.nanos),
    {
        proof {
            use_type_invariant(self);
        }
        display_text(self.secs, self.nanos)
    }

    /// Whole seconds since the start of 1970.
    pub fn secs(&self) -> (s: i64)
        ensures
            s == self@.secs,
            MIN_SECS <= s <= MAX_SECS,
    {
        proof {
            use_type_invariant(self);
        }
        self.secs
    }

    /// Nanoseconds after the whole seconds.
    pub fn nanos(&self) -> (n: u32)
        ensures
            n == self@.nanos,
            valid_instant(self@),
    {
        proof {
            use_type_invariant(self);
        }
        self.nanos
    }

    /// The nanoseconds that passed from `earlier` to `self`; negative if
    /// `earlier` is in fact later.
    pub fn nanos_since(&self, earlier: &Timestamp) -> (d: i128)
        ensures
            d == nanos_between(earlier@, self@),
    {
        proof {
            use_type_invariant(self);
            use_type_invariant(earlier);
        }
        let whole: i128 = (self.secs as i128 - earlier.secs as i128) * 1_000_000_000;
        whole + (self.nanos as i128 - earlier.nanos as i128)
    }
}

} // verus!
