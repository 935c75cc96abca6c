//! Timestamps with microsecond precision, and their conversions to the
//! calendar types of the `time` crate.
use vstd::prelude::*;
use time::{Date, OffsetDateTime, PrimitiveDateTime, Time, UtcOffset};

verus! {

#[verifier::external_type_specification]
#[verifier::external_body]
pub struct ExOffsetDateTime(OffsetDateTime);

#[verifier::external_type_specification]
#[verifier::external_body]
pub struct ExPrimitiveDateTime(PrimitiveDateTime);

#[verifier::external_type_specification]
#[verifier::external_body]
pub struct ExUtcOffset(UtcOffset);

#[verifier::external_type_specification]
#[verifier::external_body]
pub struct ExDate(Date);

#[verifier::external_type_specification]
#[verifier::external_body]
pub struct ExTime(Time);

#[verifier::external_type_specification]
#[verifier::external_body]
pub struct ExComponentRange(time::error::ComponentRange);

/// Relies on `OffsetDateTime::unix_timestamp`: the seconds since the epoch of a
/// date-time whose year lies in -9999..=9999 and whose offset is under 26 hours.
pub assume_specification[ OffsetDateTime::unix_timestamp ](dt: OffsetDateTime) -> (r: i64)
    ensures
        -400_000_000_000 <= r <= 400_000_000_000,
;

/// Relies on `OffsetDateTime::microsecond`: documented to lie in `0..1_000_000`.
pub assume_specification[ OffsetDateTime::microsecond ](dt: OffsetDateTime) -> (r: u32)
    ensures
        r < 1_000_000,
;

/// Relies on `OffsetDateTime::from_unix_timestamp_nanos`: it succeeds exactly when
/// the whole seconds lie between the first second of year -9999 and the last
/// second of year 9999 (UTC).
pub assume_specification[ OffsetDateTime::from_unix_timestamp_nanos ](timestamp: i128) -> (r:
    Result<OffsetDateTime, time::error::ComponentRange>)
    ensures
        r is Ok <==> MIN_UNIX_SECONDS <= floor_div(timestamp as int, 1_000_000_000)
            <= MAX_UNIX_SECONDS,
;

/// Relies on `OffsetDateTime::checked_to_offset`: the same instant in another
/// offset, `None` when its local date-time leaves the supported years.
pub assume_specification[ OffsetDateTime::checked_to_offset ](dt: OffsetDateTime, offset: UtcOffset) -> (r:
    Option<OffsetDateTime>);

/// Relies on `PrimitiveDateTime::assume_utc`: attaches the UTC offset.
pub assume_specification[ PrimitiveDateTime::assume_utc ](dt: PrimitiveDateTime) -> (r: OffsetDateTime);

/// Relies on `OffsetDateTime::date`: the calendar date in the stored offset.
pub assume_specification[ OffsetDateTime::date ](dt: OffsetDateTime) -> (r: Date);

/// Relies on `OffsetDateTime::time`: the clock time in the stored offset.
pub assume_specification[ OffsetDateTime::time ](dt: OffsetDateTime) -> (r: Time);

/// Relies on `PrimitiveDateTime::new`: pairs a date and a time.
pub assume_specification[ PrimitiveDateTime::new ](date: Date, time: Time) -> (r: PrimitiveDateTime);

/// Seconds since the epoch of the first second of year -9999, UTC.
pub const MIN_UNIX_SECONDS: i64 = -377_705_116_800;

/// Seconds since the epoch of the last second of year 9999, UTC.
pub const MAX_UNIX_SECONDS: i64 = 253_402_300_799;

/// Division rounding towards negative infinity.
pub open spec fn floor_div(a: int, b: int) -> int
    recommends
        b > 0,
{
    a / b
}

/// Division rounding towards zero, as Rust's `/` does on signed integers.
pub open spec fn trunc_div(a: int, b: int) -> int
    recommends
        b > 0,
{
    if a >= 0 {
        a / b
    } else {
        -((-a) / b)
    }
}

/// The precision to which a date is kept.
#[derive(Clone, Copy, Debug, PartialEq, Eq, Structural)]
pub enum DatePrecision {
    Seconds,
    Milliseconds,
    Microseconds,
}

/// The number of microseconds in one unit of the precision.
pub open spec fn precision_unit(p: DatePrecision) -> int {
    match p {
        DatePrecision::Seconds => 1_000_000,
        DatePrecision::Milliseconds => 1_000,
        DatePrecision::Microseconds => 1,
    }
}

/// A date/time value with microsecond precision, assumed to be in UTC.
#[derive(Clone, Copy, Debug, PartialEq, Eq, PartialOrd, Ord, Hash, Structural)]
pub struct DateTime {
    pub timestamp_micros: i64,
}

impl DateTime {
    /// Create new from UNIX timestamp in seconds.
    pub fn from_timestamp_secs(seconds: i64) -> (r: Self)
        requires
            i64::MIN <= seconds * 1_000_000 <= i64::MAX,
        ensures
            r.timestamp_micros == seconds * 1_000_000,
    {
        Self { timestamp_micros: seconds * 1_000_000 }
    }

    /// Create new from UNIX timestamp in milliseconds.
    pub fn from_timestamp_millis(milliseconds: i64) -> (r: Self)
        requires
            i64::MIN <= milliseconds * 1_000 <= i64::MAX,
        ensures
            r.timestamp_micros == milliseconds * 1_000,
    {
        Self { timestamp_micros: milliseconds * 1_000 }
    }

    /// Create new from UNIX timestamp in microseconds.
    pub fn from_timestamp_micros(microseconds: i64) -> (r: Self)
        ensures
            r.timestamp_micros == microseconds,
    {
        Self { timestamp_micros: microseconds }
    }

    /// Create new from whole seconds since the epoch and the microseconds
    /// within that second.
    pub fn from_unix_parts(seconds: i64, microsecond: u32) -> (r: Self)
        requires
            -400_000_000_000 <= seconds <= 400_000_000_000,
            microsecond < 1_000_000,
        ensures
            r.timestamp_micros == seconds * 1_000_000 + microsecond,
    {
        Self { timestamp_micros: seconds * 1_000_000 + microsecond as i64 }
    }

    /// Create new from `OffsetDateTime`: the instant is kept, the offset dropped.
    pub fn from_utc(dt: OffsetDateTime) -> (r: Self)
        ensures
            -400_000_000_000_000_000 <= r.timestamp_micros < 400_000_000_001_000_000,
    {
        let r = Self::from_unix_parts(dt.unix_timestamp(), dt.microsecond());
        r
    }

    /// Create new from `PrimitiveDateTime`, read as a UTC date-time.
    pub fn from_primitive(dt: PrimitiveDateTime) -> (r: Self)
        ensures
            -400_000_000_000_000_000 <= r.timestamp_micros < 400_000_000_001_000_000,
    {
        Self::from_utc(dt.assume_utc())
    }

    /// Convert to UNIX timestamp in seconds (rounded towards zero).
    pub fn into_timestamp_secs(self) -> (r: i64)
        ensures
            r == trunc_div(self.timestamp_micros as int, 1_000_000),
    {
        self.timestamp_micros / 1_000_000
    }

    /// Convert to UNIX timestamp in milliseconds (rounded towards zero).
    pub fn into_timestamp_millis(self) -> (r: i64)
        ensures
            r == trunc_div(self.timestamp_micros as int, 1_000),
    {
        self.timestamp_micros / 1_000
    }

    /// Convert to UNIX timestamp in microseconds.
    pub fn into_timestamp_micros(self) -> (r: i64)
        ensures
            r == self.timestamp_micros,
    {
        self.timestamp_micros
    }

    /// Whether the instant lies in the years that `into_utc` can represent.
    pub open spec fn in_calendar_range(self) -> bool {
        MIN_UNIX_SECONDS <= floor_div(self.timestamp_micros as int, 1_000_000) <= MAX_UNIX_SECONDS
    }

    /// Convert to UTC `OffsetDateTime`.
    pub fn into_utc(self) -> (r: OffsetDateTime)
        requires
            self.in_calendar_range(),
    {
        let timestamp_nanos = self.timestamp_micros as i128 * 1000;
        proof {
            let m = self.timestamp_micros as int;
            assert(floor_div(m * 1000, 1_000_000_000) == floor_div(m, 1_000_000)) by (nonlinear_arith);
        }
        OffsetDateTime::from_unix_timestamp_nanos(timestamp_nanos).unwrap()
    }

    /// Convert to `OffsetDateTime` with the given time zone; `None` where the
    /// local date-time leaves the years that the calendar types support.
    pub fn into_offset(self, offset: UtcOffset) -> (r: Option<OffsetDateTime>)
        requires
            self.in_calendar_range(),
    {
        self.into_utc().checked_to_offset(offset)
    }

    /// Convert to `PrimitiveDateTime` without any time zone (UTC is assumed).
    pub fn into_primitive(self) -> (r: PrimitiveDateTime)
        requires
            self.in_calendar_range(),
    {
        let utc_datetime = self.into_utc();
        PrimitiveDateTime::new(utc_datetime.date(), utc_datetime.time())
    }

    /// Truncates the microseconds value to the corresponding precision
    /// (rounding towards zero).
    pub fn truncate(self, precision: DatePrecision) -> (r: Self)
        ensures
            r.timestamp_micros == trunc_div(self.timestamp_micros as int, precision_unit(precision))
                * precision_unit(precision),
    {
        let truncated_timestamp_micros = match precision {
            DatePrecision::Seconds => (self.timestamp_micros / 1_000_000) * 1_000_000,
            DatePrecision::Milliseconds => (self.timestamp_micros / 1_000) * 1_000,
            DatePrecision::Microseconds => self.timestamp_micros,
        };
        Self { timestamp_micros: truncated_timestamp_micros }
    }
}

} // verus!
