//! What comes from the surroundings of the process: the clock and fresh
//! identifiers.
use vstd::prelude::*;

verus! {

/// A point in time: seconds since the Unix epoch and the nanoseconds that
/// have passed since that second began.
#[derive(Debug, Clone, Copy, PartialEq, Eq, Structural)]
pub struct Timestamp {
    pub secs: i64,
    pub nanos: u32,
}

/// Whether `a` is before `b`.
pub open spec fn earlier(a: Timestamp, b: Timestamp) -> bool {
    a.secs < b.secs || (a.secs == b.secs && a.nanos < b.nanos)
}

/// Milliseconds since the Unix epoch.
pub open spec fn millis_of(t: Timestamp) -> int {
    t.secs * 1000 + t.nanos as int / 1_000_000
}

impl Timestamp {
    /// The seconds stay within a range that dates can be computed in.
    pub open spec fn wf(&self) -> bool {
        -9_000_000_000_000 <= self.secs <= 9_000_000_000_000
    }

    /// Whether this point is before another.
    pub fn before(&self, other: &Timestamp) -> (r: bool)
        ensures
            r == earlier(*self, *other),
    {
        self.secs < other.secs || (self.secs == other.secs && self.nanos < other.nanos)
    }

    /// Milliseconds since the Unix epoch.
    pub fn millis(&self) -> (r: i64)
        requires
            self.wf(),
        ensures
            r == millis_of(*self),
    {
        self.secs * 1000 + (self.nanos / 1_000_000) as i64
    }
}

/// The point in time of a count of milliseconds, where it lies in the years
/// -262143 to 262142.
pub open spec fn utc_from_millis(ms: i64) -> Option<Timestamp> {
    if -8_334_601_228_800_000 <= ms <= 8_210_266_876_799_999 {
        Some(
            Timestamp {
                secs: (ms as int / 1000) as i64,
                nanos: ((ms as int % 1000) * 1_000_000) as u32,
            },
        )
    } else {
        None
    }
}

/// Calls `chrono::TimeZone::timestamp_millis_opt` for UTC. It gives the point
/// that many milliseconds after the epoch, and none outside the years that
/// its dates support.
#[verifier::external_body]
pub(crate) fn from_millis(ms: i64) -> (r: Option<Timestamp>)
    ensures
        r == utc_from_millis(ms),
{
    match chrono::TimeZone::timestamp_millis_opt(&chrono::Utc, ms).single() {
        Some(d) => Some(Timestamp { secs: d.timestamp(), nanos: d.timestamp_subsec_nanos() }),
        None => None,
    }
}

/// The text of a point in time as `chrono::DateTime::to_rfc3339` writes it
/// for UTC.
pub uninterp spec fn rfc3339_text(t: Timestamp) -> Seq<char>;

/// The point in time that `chrono::DateTime::parse_from_rfc3339` reads from
/// a text, if it reads one.
pub uninterp spec fn rfc3339_time(s: Seq<char>) -> Option<Timestamp>;

/// Whether a point lies in the years 0 to 9999, which RFC 3339 can write, and
/// in no leap second.
pub open spec fn common_era(t: Timestamp) -> bool {
    -62_167_219_200 <= t.secs < 253_402_300_800 && t.nanos < 1_000_000_000
}

/// Calls `chrono::DateTime::to_rfc3339` for UTC. It writes all digits of the
/// fraction that are not zero, so the text of a point in the years 0 to 9999
/// reads back as that point. A point outside the range of dates is written
/// as the epoch; of that text no more is said than that it has a name.
#[verifier::external_body]
pub(crate) fn to_rfc3339(t: Timestamp) -> (r: String)
    ensures
        r@ == rfc3339_text(t),
        common_era(t) ==> rfc3339_time(r@) == Some(t),
{
    let d: Option<chrono::DateTime<chrono::Utc>> = chrono::DateTime::from_timestamp(
        t.secs,
        t.nanos,
    );
    d.unwrap_or_default().to_rfc3339()
}

/// Calls `chrono::DateTime::parse_from_rfc3339`; the result is taken in UTC.
#[verifier::external_body]
pub(crate) fn from_rfc3339(s: &str) -> (r: Option<Timestamp>)
    ensures
        r == rfc3339_time(s@),
        r matches Some(t) ==> t.wf(),
{
    match chrono::DateTime::parse_from_rfc3339(s) {
        Ok(d) => Some(Timestamp { secs: d.timestamp(), nanos: d.timestamp_subsec_nanos() }),
        Err(_) => None,
    }
}

/// Calls `chrono::Utc::now`. Nothing is said of the time but that it is a
/// date of the supported range.
#[verifier::external_body]
pub(crate) fn now() -> (r: Timestamp)
    ensures
        r.wf(),
{
    let d: chrono::DateTime<chrono::Utc> = chrono::Utc::now();
    Timestamp { secs: d.timestamp(), nanos: d.timestamp_subsec_nanos() }
}

/// Calls `uuid::Uuid::new_v4` and writes the identifier in its hyphenated
/// form, which is 36 characters long. The identifier itself is random.
#[verifier::external_body]
pub(crate) fn fresh_id() -> (r: String)
    ensures
        r@.len() == 36,
{
    uuid::Uuid::new_v4().to_string()
}

/// The current time in milliseconds since the Unix epoch.
pub fn now_millis() -> (r: i64)
    ensures
        exists|t: Timestamp| t.wf() && r == #[trigger] millis_of(t),
{
    now().millis()
}

/// Milliseconds count the time: a later point has no fewer, a second is a
/// thousand of them, and a count of whole milliseconds reads back as it was.
pub proof fn law_milliseconds(a: Timestamp, b: Timestamp, ms: i64)
    requires
        a.nanos < 1_000_000_000,
        b.nanos < 1_000_000_000,
    ensures
        !earlier(b, a) ==> millis_of(a) <= millis_of(b),
        a.nanos == b.nanos ==> millis_of(b) - millis_of(a) == 1000 * (b.secs - a.secs),
        utc_from_millis(ms) matches Some(t) ==> millis_of(t) == ms,
        utc_from_millis(0) is Some,
{
}

} // verus!
