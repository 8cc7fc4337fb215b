use vstd::prelude::*;

use crate::error::AppError;

verus! {

/// The earliest second that `chrono::DateTime<Utc>` represents (-262143-01-01T00:00:00Z).
pub const MIN_UTC_SECS: i64 = -8334601228800;

/// The latest second that `chrono::DateTime<Utc>` represents (+262142-12-31T23:59:59Z).
pub const MAX_UTC_SECS: i64 = 8210266876799;

/// A point in time in UTC: whole seconds since 1970-01-01T00:00:00Z (not counting leap
/// seconds) and the nanoseconds past that second. As in chrono, a leap second is a
/// second ending in :59 whose nanoseconds run from 1_000_000_000 up.
#[derive(Debug, Clone, Copy, PartialEq, Eq, Structural)]
pub struct Timestamp {
    pub secs: i64,
    pub nanos: u32,
}

/// The pairs `(secs, nanos)` that stand for a `chrono::DateTime<Utc>`.
pub open spec fn utc_representable(secs: int, nanos: int) -> bool {
    &&& MIN_UTC_SECS <= secs <= MAX_UTC_SECS
    &&& 0 <= nanos < 2_000_000_000
    &&& nanos >= 1_000_000_000 ==> secs % 60 == 59
}

/// The timestamp that a `(secs, nanos)` pair read from chrono stands for.
pub open spec fn timestamp_of(p: Option<(i64, u32)>) -> Option<Timestamp> {
    match p {
        Some((secs, nanos)) => Some(Timestamp { secs, nanos }),
        None => None,
    }
}

impl Timestamp {
    /// The timestamp stands for a `chrono::DateTime<Utc>`.
    pub open spec fn wf(self) -> bool {
        utc_representable(self.secs as int, self.nanos as int)
    }

    /// Chronological order (the order of `chrono::DateTime`): by second, then by nanosecond.
    pub open spec fn lt(self, other: Timestamp) -> bool {
        self.secs < other.secs || (self.secs == other.secs && self.nanos < other.nanos)
    }

    /// Chronological order, not strict.
    pub open spec fn le(self, other: Timestamp) -> bool {
        self.lt(other) || self == other
    }

    /// The timestamp `(secs, nanos)` when it stands for a `chrono::DateTime<Utc>`.
    pub fn new(secs: i64, nanos: u32) -> (res: Option<Timestamp>)
        ensures
            res is Some <==> utc_representable(secs as int, nanos as int),
            res matches Some(t) ==> t.secs == secs && t.nanos == nanos,
    {
        let leap_ok = nanos < 1_000_000_000 || secs % 60 == 59 || secs % 60 == -1;
        if MIN_UTC_SECS <= secs && secs <= MAX_UTC_SECS && nanos < 2_000_000_000 && leap_ok {
            proof {
                assert(nanos >= 1_000_000_000 ==> (secs as int) % 60 == 59) by {
                    if nanos >= 1_000_000_000 {
                        assert(secs % 60 == 59 || secs % 60 == -1);
                    }
                }
            }
            Some(Timestamp { secs, nanos })
        } else {
            proof {
                if nanos >= 1_000_000_000 && nanos < 2_000_000_000 && MIN_UTC_SECS <= secs
                    && secs <= MAX_UTC_SECS {
                    assert(!((secs as int) % 60 == 59));
                }
            }
            None
        }
    }

    /// Whether `self` comes strictly before `other`.
    pub fn is_before(&self, other: &Timestamp) -> (res: bool)
        ensures
            res == self.lt(*other),
    {
        self.secs < other.secs || (self.secs == other.secs && self.nanos < other.nanos)
    }
}

/// Seconds since midnight of a timestamp's day.
pub open spec fn second_of_day(t: Timestamp) -> int {
    (t.secs as int) % 86400
}

/// `(later - earlier).num_seconds()` for two `chrono::DateTime<Utc>`: the difference in
/// whole seconds, rounded toward zero, with chrono's rule for a leap second.
pub open spec fn delta_seconds(later: Timestamp, earlier: Timestamp) -> int {
    let adj: int = if second_of_day(later) > second_of_day(earlier) && earlier.nanos
        >= 1_000_000_000 {
        1
    } else if second_of_day(later) < second_of_day(earlier) && later.nanos >= 1_000_000_000 {
        -1
    } else {
        0
    };
    let frac: int = later.nanos as int - earlier.nanos as int;
    let secs: int = later.secs as int - earlier.secs as int + adj + frac / 1_000_000_000;
    let nanos: int = frac % 1_000_000_000;
    if secs < 0 && nanos > 0 {
        secs + 1
    } else {
        secs
    }
}

/// The seconds field of `t - TimeDelta::days(days)` in chrono, before any range check:
/// a leap second is first moved to the start of the next second.
pub open spec fn shifted_secs(t: Timestamp, days: int) -> int {
    if days == 0 {
        t.secs as int
    } else if t.nanos >= 1_000_000_000 {
        t.secs + 1 - 86400 * days
    } else {
        t.secs - 86400 * days
    }
}

/// The nanoseconds field of `t - TimeDelta::days(days)` in chrono.
pub open spec fn shifted_nanos(t: Timestamp, days: int) -> int {
    if days != 0 && t.nanos >= 1_000_000_000 {
        t.nanos - 1_000_000_000
    } else {
        t.nanos as int
    }
}

/// `t.checked_sub_signed(TimeDelta::days(days))` in chrono: `None` when the result leaves
/// the range of `DateTime<Utc>`.
pub open spec fn days_before_spec(t: Timestamp, days: int) -> Option<Timestamp> {
    if utc_representable(shifted_secs(t, days), shifted_nanos(t, days)) {
        Some(Timestamp { secs: shifted_secs(t, days) as i64, nanos: shifted_nanos(t, days) as u32 })
    } else {
        None
    }
}

/// Elapsed whole seconds between two ordinary (non-leap) times, the later one second: the
/// difference of their seconds, less one when the later one is earlier within its second
/// (a part second does not count).
pub proof fn lemma_delta_seconds_elapsed(later: Timestamp, earlier: Timestamp)
    requires
        later.nanos < 1_000_000_000,
        earlier.nanos < 1_000_000_000,
        earlier.le(later),
    ensures
        delta_seconds(later, earlier) == later.secs - earlier.secs - (if later.nanos < earlier.nanos {
            1int
        } else {
            0int
        }),
        delta_seconds(later, earlier) >= 0,
{
    let frac: int = later.nanos as int - earlier.nanos as int;
    if frac < 0 {
        assert(frac / 1_000_000_000 == -1);
        assert(frac % 1_000_000_000 == frac + 1_000_000_000);
    } else {
        assert(frac / 1_000_000_000 == 0);
        assert(frac % 1_000_000_000 == frac);
    }
}

/// Going back whole days keeps the time of day: `days` days before a timestamp that is not
/// a leap second is the same nanosecond, `86400 * days` seconds earlier, whenever that is
/// still in chrono's range (and nothing otherwise); a leap second is first taken to the
/// start of the next second.
pub proof fn lemma_days_before_keeps_time_of_day(t: Timestamp, days: nat)
    requires
        t.wf(),
    ensures
        t.nanos < 1_000_000_000 ==> days_before_spec(t, days as int) == (if MIN_UTC_SECS <= t.secs - 86400
            * days {
            Some(Timestamp { secs: (t.secs - 86400 * days) as i64, nanos: t.nanos })
        } else {
            None
        }),
        t.nanos >= 1_000_000_000 && days > 0 ==> days_before_spec(t, days as int) == (if MIN_UTC_SECS
            <= t.secs + 1 - 86400 * days {
            Some(
                Timestamp {
                    secs: (t.secs + 1 - 86400 * days) as i64,
                    nanos: (t.nanos - 1_000_000_000) as u32,
                },
            )
        } else {
            None
        }),
        days == 0 ==> days_before_spec(t, 0) == Some(t),
{
}

/// What `NaiveDateTime::parse_from_str(s, fmt)` gives, taken to UTC with `and_utc` and read
/// back as `(timestamp(), timestamp_subsec_nanos())`; `None` when the parse fails.
pub uninterp spec fn naive_utc_parse(s: Seq<char>, fmt: Seq<char>) -> Option<(i64, u32)>;

/// What `DateTime::parse_from_rfc3339(s)` gives, converted to UTC and read back as
/// `(timestamp(), timestamp_subsec_nanos())`, or the text of its parse error.
pub uninterp spec fn rfc3339_utc_parse(s: Seq<char>) -> Result<(i64, u32), Seq<char>>;

/// The text that `DateTime::<Utc>::format(fmt).to_string()` renders for a timestamp.
pub uninterp spec fn utc_format(secs: i64, nanos: u32, fmt: Seq<char>) -> Seq<char>;

/// The first second of the year 0 (0000-01-01T00:00:00Z).
pub const YEAR_0_SECS: i64 = -62167219200;

/// The first second of the year 10000 (10000-01-01T00:00:00Z).
pub const YEAR_10000_SECS: i64 = 253402300800;

/// The timestamp falls in the years 0 to 9999, whose years `%Y` renders with four digits.
pub open spec fn four_digit_year(t: Timestamp) -> bool {
    YEAR_0_SECS <= t.secs < YEAR_10000_SECS
}

/// The whole milliseconds past the timestamp's second (a leap second counts from 1000 up).
pub open spec fn millis_of(t: Timestamp) -> int {
    t.nanos as int / 1_000_000
}

/// `t` comes before `u` at the precision of milliseconds.
pub open spec fn millis_before(t: Timestamp, u: Timestamp) -> bool {
    t.secs < u.secs || (t.secs == u.secs && millis_of(t) < millis_of(u))
}

/// `t` and `u` fall in the same millisecond.
pub open spec fn same_millis(t: Timestamp, u: Timestamp) -> bool {
    t.secs == u.secs && millis_of(t) == millis_of(u)
}

/// The timestamp cut down to whole milliseconds, as `(secs, nanos)`.
pub open spec fn truncated_to_millis(t: Timestamp) -> (i64, u32) {
    (t.secs, (millis_of(t) * 1_000_000) as u32)
}

/// Lexicographic order of texts by character, the order in which `String`s (and SQLite's
/// binary collation of UTF-8 text) sort: `a` comes strictly before `b`.
pub open spec fn text_lt(a: Seq<char>, b: Seq<char>) -> bool {
    ||| exists|i: int|
        0 <= i < a.len() && i < b.len() && a.take(i) == b.take(i) && (a[i] as int) < (
        #[trigger] b[i] as int)
    ||| (a.len() < b.len() && a == b.take(a.len() as int))
}

/// How the stored texts `a` of `t` and `b` of `u` compare: their text order is the
/// chronological order of `t` and `u` to the millisecond.
pub open spec fn stored_order(t: Timestamp, u: Timestamp, a: Seq<char>, b: Seq<char>) -> bool {
    &&& millis_before(t, u) ==> text_lt(a, b)
    &&& millis_before(u, t) ==> text_lt(b, a)
    &&& same_millis(t, u) ==> a == b
}

/// The stored text `a` of `t` sorts against the stored text of every timestamp of the years
/// 0 to 9999 as `t` does against it, to the millisecond.
pub open spec fn sorts_as_stored_time(t: Timestamp, a: Seq<char>) -> bool {
    forall|secs: i64, nanos: u32|
        #![trigger utc_format(secs, nanos, stored_time_format())]
        utc_representable(secs as int, nanos as int) && four_digit_year(Timestamp { secs, nanos })
            ==> stored_order(t, Timestamp { secs, nanos }, a, utc_format(secs, nanos, stored_time_format()))
}

/// `parse_from_rfc3339` reads the text `a` back to `t` cut down to whole milliseconds.
pub open spec fn reads_back_to_millis(t: Timestamp, a: Seq<char>) -> bool {
    rfc3339_utc_parse(a) == Ok::<(i64, u32), Seq<char>>(truncated_to_millis(t))
}

/// The format under which heartbeat times are stored: fixed-width UTC with milliseconds.
pub open spec fn stored_time_format() -> Seq<char> {
    "%Y-%m-%dT%H:%M:%S%.3fZ"@
}

/// Calls `chrono::NaiveDateTime::parse_from_str(s, fmt)` and reads the result as UTC.
/// Claimed: the result is the named `naive_utc_parse(s, fmt)`, and a parsed value is a
/// `DateTime<Utc>` (chrono builds it with range-checked constructors).
#[verifier::external_body]
fn parse_naive_as_utc(s: &str, fmt: &str) -> (res: Option<Timestamp>)
    ensures
        res == timestamp_of(naive_utc_parse(s@, fmt@)),
        res matches Some(t) ==> t.wf(),
{
    match chrono::NaiveDateTime::parse_from_str(s, fmt) {
        Ok(ndt) => {
            let dt = ndt.and_utc();
            Some(Timestamp { secs: dt.timestamp(), nanos: dt.timestamp_subsec_nanos() })
        },
        Err(_) => None,
    }
}

/// Calls `chrono::DateTime::parse_from_rfc3339(s)` and converts the result to UTC.
/// Claimed: the result is the named `rfc3339_utc_parse(s)` (the error as its `to_string()`),
/// and a parsed value is a `DateTime<Utc>`.
#[verifier::external_body]
fn parse_rfc3339_as_utc(s: &str) -> (res: Result<Timestamp, String>)
    ensures
        match (res, rfc3339_utc_parse(s@)) {
            (Ok(t), Ok((secs, nanos))) => t.secs == secs && t.nanos == nanos,
            (Err(m), Err(e)) => m@ == e,
            _ => false,
        },
        res matches Ok(t) ==> t.wf(),
{
    match chrono::DateTime::parse_from_rfc3339(s) {
        Ok(dt) => {
            let utc = dt.with_timezone(&chrono::Utc);
            Ok(Timestamp { secs: utc.timestamp(), nanos: utc.timestamp_subsec_nanos() })
        },
        Err(e) => Err(e.to_string()),
    }
}

/// Calls `chrono::DateTime::<Utc>::format(fmt).to_string()` for the stored-time format.
/// Claimed: the result is the named `utc_format(t, fmt)`. The format is limited to the one
/// the library uses, which chrono renders without error. For the years 0 to 9999 chrono
/// writes every field at a fixed width (`%Y` as four zero-padded digits, a leap second as
/// second 60, `%.3f` as the milliseconds of the nanoseconds modulo one second), so two such
/// texts sort as their timestamps do to the millisecond, and `parse_from_rfc3339` reads the
/// text back to the timestamp cut down to whole milliseconds. Outside those years `%Y`
/// carries a sign and nothing more is claimed.
#[verifier::external_body]
fn format_as_utc(t: Timestamp, fmt: &str) -> (res: String)
    requires
        t.wf(),
        fmt@ == stored_time_format(),
    ensures
        res@ == utc_format(t.secs, t.nanos, fmt@),
        four_digit_year(t) ==> reads_back_to_millis(t, res@),
        four_digit_year(t) ==> sorts_as_stored_time(t, res@),
{
    match chrono::DateTime::from_timestamp(t.secs, t.nanos) {
        Some(dt) => dt.format(fmt).to_string(),
        None => String::new(),
    }
}

/// Calls `(later - earlier).num_seconds()` on the two `chrono::DateTime<Utc>`.
/// Claimed: chrono's `signed_duration_since`, read back in whole seconds (`delta_seconds`).
#[verifier::external_body]
fn chrono_seconds_between(later: Timestamp, earlier: Timestamp) -> (res: i64)
    requires
        later.wf(),
        earlier.wf(),
    ensures
        res == delta_seconds(later, earlier),
{
    match (
        chrono::DateTime::from_timestamp(later.secs, later.nanos),
        chrono::DateTime::from_timestamp(earlier.secs, earlier.nanos),
    ) {
        (Some(a), Some(b)) => (a - b).num_seconds(),
        _ => 0,
    }
}

/// Calls `t.checked_sub_signed(TimeDelta::days(days))` on a `chrono::DateTime<Utc>`.
/// Claimed: chrono's result, `None` exactly when it leaves the range (`days_before_spec`).
#[verifier::external_body]
fn chrono_days_before(t: Timestamp, days: u32) -> (res: Option<Timestamp>)
    requires
        t.wf(),
    ensures
        res == days_before_spec(t, days as int),
{
    match chrono::DateTime::from_timestamp(t.secs, t.nanos) {
        Some(dt) => match dt.checked_sub_signed(chrono::TimeDelta::days(days as i64)) {
            Some(r) => Some(Timestamp { secs: r.timestamp(), nanos: r.timestamp_subsec_nanos() }),
            None => None,
        },
        None => None,
    }
}

/// Parses an Uptime Kuma heartbeat time, `"%Y-%m-%d %H:%M:%S%.f"` with no timezone, as UTC.
pub fn parse_kuma_time(s: &str) -> (res: Option<Timestamp>)
    ensures
        res == timestamp_of(naive_utc_parse(s@, "%Y-%m-%d %H:%M:%S%.f"@)),
        res matches Some(t) ==> t.wf(),
{
    parse_naive_as_utc(s, "%Y-%m-%d %H:%M:%S%.f")
}

/// Parses a stored RFC 3339 time; a malformed value is a storage error carrying chrono's
/// message.
pub fn parse_stored_time(s: &str) -> (res: Result<Timestamp, AppError>)
    ensures
        match (res, rfc3339_utc_parse(s@)) {
            (Ok(t), Ok((secs, nanos))) => t.secs == secs && t.nanos == nanos && t.wf(),
            (Err(AppError::Store(m)), Err(e)) => m@ == e,
            _ => false,
        },
{
    match parse_rfc3339_as_utc(s) {
        Ok(t) => Ok(t),
        Err(m) => Err(AppError::Store(m)),
    }
}

/// Fixed-width UTC rendering (`%Y-%m-%dT%H:%M:%S%.3fZ`) under which heartbeat times are
/// stored and compared.
///
/// For the years 0 to 9999 the text is what makes stored times comparable: it reads back
/// through `parse_stored_time` to the timestamp cut down to whole milliseconds, and two such
/// texts sort as their timestamps do, to the millisecond.
pub fn fmt_time(t: Timestamp) -> (res: String)
    requires
        t.wf(),
    ensures
        res@ == utc_format(t.secs, t.nanos, stored_time_format()),
        four_digit_year(t) ==> reads_back_to_millis(t, res@),
        four_digit_year(t) ==> sorts_as_stored_time(t, res@),
{
    format_as_utc(t, "%Y-%m-%dT%H:%M:%S%.3fZ")
}

/// The time `days` whole days before `t`; `None` when that leaves chrono's range.
pub fn days_before(t: Timestamp, days: u32) -> (res: Option<Timestamp>)
    requires
        t.wf(),
    ensures
        res == days_before_spec(t, days as int),
        res matches Some(r) ==> r.wf(),
{
    chrono_days_before(t, days)
}

/// `(later - earlier)` in whole seconds, rounded toward zero.
pub fn seconds_between(later: Timestamp, earlier: Timestamp) -> (res: i64)
    requires
        later.wf(),
        earlier.wf(),
    ensures
        res == delta_seconds(later, earlier),
{
    chrono_seconds_between(later, earlier)
}

} // verus!
