//! Points in time, ages in days, and the wire form of a timestamp.

use vstd::prelude::*;

verus! {

/// Nanoseconds since the Unix epoch, within the range of years that can be written.
#[derive(Clone, Copy, Debug, PartialEq, Eq, PartialOrd, Ord)]
pub struct Timestamp {
    nanosecond: i128,
}

/// Whether a timestamp can lie `nanosecond` after the epoch.
pub open spec fn in_time_range(nanosecond: int) -> bool {
    -377_705_023_201_000_000_000 <= nanosecond <= 253_402_207_200_999_999_999
}

/// The whole days from `then` to `now`, zero where `then` is later.
pub open spec fn days_between(now: int, then: int) -> u32 {
    if now < then {
        0
    } else {
        ((now - then) / 1_000_000_000 / 86_400) as u32
    }
}

/// What formatting the point in time `nanosecond` after the epoch, in UTC, gives.
pub uninterp spec fn utc_text(nanosecond: int, format: Seq<char>) -> Seq<char>;

/// `nanosecond` cut down to its whole second.
pub open spec fn whole_second(nanosecond: int) -> int {
    nanosecond / 1_000_000_000 * 1_000_000_000
}

/// Calls `jiff::Timestamp::now` and `as_nanosecond`, which give the system time as
/// a timestamp of jiff's range. (`now` panics where the system clock is set
/// outside of that range.)
#[verifier::external_body]
fn clock_nanosecond() -> (r: i128)
    ensures
        in_time_range(r as int),
{
    k8s_openapi::jiff::Timestamp::now().as_nanosecond()
}

/// Whether `format` asks for the date and time in whole seconds, with a literal `Z`
/// behind them.
pub open spec fn whole_second_format(format: Seq<char>) -> bool {
    format == "%Y-%m-%dT%H:%M:%SZ"@
}

/// Calls `jiff::Timestamp::from_nanosecond`, which succeeds on the range required
/// here, and `strftime` on the result, which writes it in UTC. (Writing a malformed
/// format panics, so the one in use is required.) The text holds no point, ends in
/// that `Z`, and is the text of the whole second.
#[verifier::external_body]
fn utc_strftime(nanosecond: i128, format: &str) -> (r: String)
    requires
        in_time_range(nanosecond as int),
        whole_second_format(format@),
    ensures
        r@ == utc_text(nanosecond as int, format@),
        r@ == utc_text(whole_second(nanosecond as int), format@),
        !r@.contains('.'),
        r@.len() > 0,
        r@.last() == 'Z',
{
    k8s_openapi::jiff::Timestamp::from_nanosecond(nanosecond).unwrap().strftime(format).to_string()
}

impl View for Timestamp {
    type V = int;

    closed spec fn view(&self) -> int {
        self.nanosecond as int
    }
}

impl Timestamp {
    #[verifier::type_invariant]
    spec fn in_range(self) -> bool {
        in_time_range(self.nanosecond as int)
    }

    /// The point in time `nanosecond` after the epoch, where it is in range.
    pub fn from_nanosecond(nanosecond: i128) -> (r: Option<Timestamp>)
        ensures
            match r {
                Some(ts) => in_time_range(nanosecond as int) && ts@ == nanosecond,
                None => !in_time_range(nanosecond as int),
            },
    {
        if -377_705_023_201_000_000_000 <= nanosecond && nanosecond
            <= 253_402_207_200_999_999_999 {
            Some(Timestamp { nanosecond })
        } else {
            None
        }
    }

    /// The nanoseconds since the epoch.
    pub fn as_nanosecond(&self) -> (r: i128)
        ensures
            r == self@,
            in_time_range(self@),
    {
        proof {
            use_type_invariant(self);
        }
        self.nanosecond
    }

    /// The system time.
    pub fn now() -> (r: Timestamp)
        ensures
            in_time_range(r@),
    {
        Timestamp { nanosecond: clock_nanosecond() }
    }
}

/// The whole days from `ts` to `now`, zero where `ts` is later.
pub fn whole_days_between(now: &Timestamp, ts: &Timestamp) -> (r: u32)
    ensures
        r == days_between(now@, ts@),
{
    let n: i128 = now.as_nanosecond();
    let t: i128 = ts.as_nanosecond();
    if n < t {
        0
    } else {
        ((n - t) / 1_000_000_000 / 86_400) as u32
    }
}

/// Days elapsed since `ts`, cut to whole days. Zero if `ts` is in the future.
pub fn days_since(ts: &Timestamp) -> (r: u32)
    ensures
        exists|now: int| in_time_range(now) && r == #[trigger] days_between(now, ts@),
{
    let now = Timestamp::now();
    whole_days_between(&now, ts)
}

/// Renders a timestamp as the backend parses it: RFC 3339, whole seconds, `Z` suffix.
///
/// The backend rejects more than six fractional digits, so none is ever written.
pub fn format_rfc3339(ts: &Timestamp) -> (r: String)
    ensures
        r@ == utc_text(whole_second(ts@), "%Y-%m-%dT%H:%M:%SZ"@),
        r@ == utc_text(ts@, "%Y-%m-%dT%H:%M:%SZ"@),
        !r@.contains('.'),
        r@.len() > 0,
        r@.last() == 'Z',
{
    utc_strftime(ts.as_nanosecond(), "%Y-%m-%dT%H:%M:%SZ")
}

/// A timestamp that is not later is at least as many days old.
pub proof fn law_age_grows(now: int, earlier: int, later: int)
    requires
        in_time_range(now),
        in_time_range(earlier),
        in_time_range(later),
        earlier <= later,
    ensures
        days_between(now, later) <= days_between(now, earlier),
{
}

} // verus!
