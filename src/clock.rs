//! Instants as plain integers: seconds since the Unix epoch (UTC) together with
//! the local offset in force at that instant. Day buckets and the `HH:MM` label
//! are computed from these; the clock and the calendar label come from chrono.
use vstd::prelude::*;

verus! {

pub const SECS_PER_DAY: i64 = 86400;

/// 0001-01-01T00:00:00Z.
pub const MIN_UTC: i64 = -62135596800;

/// 9999-12-31T23:59:59Z.
pub const MAX_UTC: i64 = 253402300799;

/// A local offset is less than a day in either direction.
pub const MAX_OFFSET: i32 = 86399;

/// Whole days added before dividing, so that division is on non-negative
/// numbers; it is a multiple of a day and does not change the result.
pub const BIAS_DAYS: i64 = 800000;

pub const BIAS_SECS: i64 = 69120000000;

/// Smallest and largest day number (days since 1970-01-01) that a
/// well-formed instant can fall on locally.
pub const MIN_DAY: i64 = -719163;

pub const MAX_DAY: i64 = 2932897;

/// An instant: `utc` seconds since the epoch, seen with a local offset of
/// `offset` seconds east of UTC.
#[derive(Clone, Copy, Debug, PartialEq, Eq)]
pub struct Stamp {
    pub utc: i64,
    pub offset: i32,
}

/// The local wall-clock reading of an instant, in seconds since the epoch.
pub open spec fn local_secs(s: Stamp) -> int {
    s.utc + s.offset
}

/// The local calendar day of an instant, as days since 1970-01-01.
pub open spec fn local_day(s: Stamp) -> int {
    (local_secs(s) + BIAS_SECS) / (SECS_PER_DAY as int) - BIAS_DAYS
}

/// Seconds since local midnight.
pub open spec fn secs_of_day(s: Stamp) -> int {
    (local_secs(s) + BIAS_SECS) % (SECS_PER_DAY as int)
}

pub open spec fn hour_of(s: Stamp) -> int {
    secs_of_day(s) / 3600
}

pub open spec fn minute_of(s: Stamp) -> int {
    (secs_of_day(s) % 3600) / 60
}

pub open spec fn digit(d: int) -> char {
    if d == 0 {
        '0'
    } else if d == 1 {
        '1'
    } else if d == 2 {
        '2'
    } else if d == 3 {
        '3'
    } else if d == 4 {
        '4'
    } else if d == 5 {
        '5'
    } else if d == 6 {
        '6'
    } else if d == 7 {
        '7'
    } else if d == 8 {
        '8'
    } else {
        '9'
    }
}

/// `n` in two decimal digits, for `0 <= n < 100`.
pub open spec fn two_digits(n: int) -> Seq<char> {
    seq![digit(n / 10), digit(n % 10)]
}

/// `HH:MM`, the local time of day of an instant.
pub open spec fn clock_label(s: Stamp) -> Seq<char> {
    two_digits(hour_of(s)) + seq![':'] + two_digits(minute_of(s))
}

/// The ISO calendar date `YYYY-MM-DD` of a day number, as chrono writes it.
pub uninterp spec fn date_label_of(day: int) -> Seq<char>;

impl Stamp {
    /// `local_day` as a day number.
    pub open spec fn day_spec(&self) -> i64 {
        local_day(*self) as i64
    }

    pub open spec fn wf(&self) -> bool {
        &&& MIN_UTC <= self.utc <= MAX_UTC
        &&& -MAX_OFFSET <= self.offset <= MAX_OFFSET
    }

    /// The instant, where both values lie in the supported range.
    pub fn new(utc: i64, offset: i32) -> (r: Option<Stamp>)
        ensures
            r == (if MIN_UTC <= utc <= MAX_UTC && -MAX_OFFSET <= offset <= MAX_OFFSET {
                Some(Stamp { utc, offset })
            } else {
                None::<Stamp>
            }),
    {
        if MIN_UTC <= utc && utc <= MAX_UTC && -MAX_OFFSET <= offset && offset <= MAX_OFFSET {
            Some(Stamp { utc, offset })
        } else {
            None
        }
    }

    fn biased_local(&self) -> (r: u64)
        requires
            self.wf(),
        ensures
            r == local_secs(*self) + BIAS_SECS,
    {
        (self.utc + self.offset as i64 + BIAS_SECS) as u64
    }

    /// The local calendar day, as days since 1970-01-01.
    pub fn day(&self) -> (r: i64)
        requires
            self.wf(),
        ensures
            r == local_day(*self),
            MIN_DAY <= r <= MAX_DAY,
    {
        let b = self.biased_local();
        assert(MIN_DAY <= local_day(*self) <= MAX_DAY) by (nonlinear_arith)
            requires
                b == local_secs(*self) + BIAS_SECS,
                MIN_UTC - MAX_OFFSET <= local_secs(*self) <= MAX_UTC + MAX_OFFSET,
                local_day(*self) == b as int / 86400 - BIAS_DAYS,
        ;
        (b / 86400) as i64 - BIAS_DAYS
    }

    /// The local time of day as `HH:MM`.
    pub fn clock_label(&self) -> (r: Vec<char>)
        requires
            self.wf(),
        ensures
            r@ == clock_label(*self),
            0 <= hour_of(*self) < 24,
            0 <= minute_of(*self) < 60,
    {
        let b = self.biased_local();
        let sod = b % 86400;
        let h = sod / 3600;
        let m = (sod % 3600) / 60;
        let mut r: Vec<char> = Vec::new();
        r.push(digit_char(h / 10));
        r.push(digit_char(h % 10));
        r.push(':');
        r.push(digit_char(m / 10));
        r.push(digit_char(m % 10));
        assert(r@ =~= clock_label(*self));
        r
    }
}

pub fn digit_char(d: u64) -> (c: char)
    requires
        d < 10,
    ensures
        c == digit(d as int),
{
    if d == 0 {
        '0'
    } else if d == 1 {
        '1'
    } else if d == 2 {
        '2'
    } else if d == 3 {
        '3'
    } else if d == 4 {
        '4'
    } else if d == 5 {
        '5'
    } else if d == 6 {
        '6'
    } else if d == 7 {
        '7'
    } else if d == 8 {
        '8'
    } else {
        '9'
    }
}

/// Relies on `std::time::SystemTime::now` and chrono's
/// `From<SystemTime> for DateTime<Local>`: the current instant as UTC seconds
/// (also before 1970, which that conversion handles) and the local offset in
/// force (chrono keeps a `FixedOffset` strictly within a day).
#[verifier::external_body]
pub(crate) fn read_clock() -> (r: (i64, i32))
    ensures
        -MAX_OFFSET <= r.1 <= MAX_OFFSET,
{
    let now: chrono::DateTime<chrono::Local> = std::time::SystemTime::now().into();
    (now.timestamp(), now.offset().local_minus_utc())
}

/// The current instant, or `None` when the system clock lies outside the
/// years 1 to 9999.
pub fn now() -> (r: Option<Stamp>)
    ensures
        r matches Some(s) ==> s.wf(),
{
    let (utc, offset) = read_clock();
    Stamp::new(utc, offset)
}

/// Relies on `chrono::NaiveDate::from_epoch_days` and its `%Y-%m-%d` format:
/// the calendar date of a day number (day 0 is 1970-01-01). chrono's range of
/// dates spans far more than the days allowed here.
#[verifier::external_body]
pub(crate) fn date_label(day: i64) -> (r: String)
    requires
        MIN_DAY <= day <= MAX_DAY,
    ensures
        r@ == date_label_of(day as int),
{
    match chrono::NaiveDate::from_epoch_days(day as i32) {
        Some(d) => d.format("%Y-%m-%d").to_string(),
        None => String::new(),
    }
}

/// What chrono reads from an RFC 3339 text: the instant in UTC seconds and
/// the offset written with it, or `None` where the text is not RFC 3339.
pub uninterp spec fn rfc3339_reading(s: Seq<char>) -> Option<(i64, i32)>;

/// Relies on `chrono::DateTime::parse_from_rfc3339`: the instant and the
/// written offset (a `FixedOffset`, so strictly within a day).
#[verifier::external_body]
pub(crate) fn parse_rfc3339(s: &str) -> (r: Option<(i64, i32)>)
    ensures
        r == rfc3339_reading(s@),
        r matches Some(p) ==> -MAX_OFFSET <= p.1 <= MAX_OFFSET,
{
    match chrono::DateTime::parse_from_rfc3339(s) {
        Ok(d) => Some((d.timestamp(), d.offset().local_minus_utc())),
        Err(_) => None,
    }
}

/// Relies on chrono's `Local` time zone (via `DateTime::with_timezone`): the
/// local offset in force at UTC second `utc`, a `FixedOffset` strictly
/// within a day. chrono represents every second allowed here.
#[verifier::external_body]
pub(crate) fn local_offset_at(utc: i64) -> (r: i32)
    requires
        MIN_UTC <= utc <= MAX_UTC,
    ensures
        -MAX_OFFSET <= r <= MAX_OFFSET,
{
    let d = chrono::DateTime::from_timestamp(utc, 0).unwrap_or_default();
    d.with_timezone(&chrono::Local).offset().local_minus_utc()
}

impl Stamp {
    /// The instant written in an RFC 3339 text, seen with the local offset
    /// in force then; `None` where the text is not RFC 3339 or the instant
    /// lies outside the years 1 to 9999.
    pub fn from_rfc3339(s: &str) -> (r: Option<Stamp>)
        ensures
            r is Some <==> (rfc3339_reading(s@) matches Some(p) && MIN_UTC <= p.0 <= MAX_UTC),
            r matches Some(st) ==> st.wf() && (rfc3339_reading(s@) matches Some(p) && st.utc == p.0),
    {
        match parse_rfc3339(s) {
            Some((utc, _)) => {
                if MIN_UTC <= utc && utc <= MAX_UTC {
                    Some(Stamp { utc, offset: local_offset_at(utc) })
                } else {
                    None
                }
            },
            None => None,
        }
    }
}

} // verus!
