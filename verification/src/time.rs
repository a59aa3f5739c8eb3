//! UTC instants as plain integers: seconds since the Unix epoch plus a
//! sub-second nanosecond part. The chrono crate supplies the clock and the
//! RFC 3339 text form; everything else is verified arithmetic.

use vstd::prelude::*;

verus! {

/// Latest second this library handles: 9999-12-31T23:59:59 UTC.
pub const MAX_SECS: i64 = 253_402_300_799;

pub const NANOS_PER_SEC: u32 = 1_000_000_000;

/// A UTC instant: `secs` seconds and `nanos` nanoseconds since the Unix epoch.
#[derive(Clone, Copy, PartialEq, Eq, Structural, Debug)]
pub struct Timestamp {
    pub secs: i64,
    pub nanos: u32,
}

impl View for Timestamp {
    type V = int;

    /// An instant is abstractly the number of nanoseconds since the epoch.
    open spec fn view(&self) -> int {
        self.secs * 1_000_000_000 + self.nanos
    }
}

impl Timestamp {
    /// Well-formed: within the supported range and with a normalized
    /// sub-second part.
    pub open spec fn wf(self) -> bool {
        &&& 0 <= self.secs <= MAX_SECS
        &&& self.nanos < NANOS_PER_SEC
    }

    pub fn new(secs: i64, nanos: u32) -> (t: Timestamp)
        requires
            0 <= secs <= MAX_SECS,
            nanos < NANOS_PER_SEC,
        ensures
            t.wf(),
            t.secs == secs,
            t.nanos == nanos,
    {
        Timestamp { secs, nanos }
    }

    /// Whether `self` is no later than `other`.
    pub fn le(&self, other: &Timestamp) -> (b: bool)
        requires
            self.wf(),
            other.wf(),
        ensures
            b == (self@ <= other@),
    {
        self.secs < other.secs || (self.secs == other.secs && self.nanos <= other.nanos)
    }

    /// Whether the fields are well-formed, decided at run time.
    pub fn check_wf(&self) -> (b: bool)
        ensures
            b == self.wf(),
    {
        0 <= self.secs && self.secs <= MAX_SECS && self.nanos < NANOS_PER_SEC
    }
}

/// Relies on std's `SystemTime::now` and its distance from the Unix epoch;
/// a clock reading before the epoch comes back as the epoch itself, so the
/// call never panics. Nothing is assumed of the value: the caller
/// normalizes it.
#[verifier::external_body]
fn now_raw() -> Timestamp {
    match std::time::SystemTime::now().duration_since(std::time::UNIX_EPOCH) {
        Ok(d) => Timestamp { secs: d.as_secs() as i64, nanos: d.subsec_nanos() },
        Err(_) => Timestamp { secs: 0, nanos: 0 },
    }
}

/// The current UTC instant, clamped into the supported range.
pub fn now() -> (t: Timestamp)
    ensures
        t.wf(),
{
    let raw = now_raw();
    let secs: i64 = if raw.secs < 0 {
        0
    } else if raw.secs > MAX_SECS {
        MAX_SECS
    } else {
        raw.secs
    };
    let nanos: u32 = if raw.nanos >= NANOS_PER_SEC {
        NANOS_PER_SEC - 1
    } else {
        raw.nanos
    };
    Timestamp { secs, nanos }
}

/// The RFC 3339 text (nanosecond precision, `Z` suffix) of the instant
/// `t` nanoseconds after the Unix epoch. The text itself is left to chrono.
pub uninterp spec fn rfc3339_of(t: int) -> Seq<char>;

/// Relies on chrono's `DateTime::from_timestamp` (defined on the whole
/// supported range, so the unwrap cannot fail) and `to_rfc3339_opts`, whose
/// result depends on the instant alone: for years 1970 to 9999 the text is
/// the fixed-width `YYYY-MM-DDTHH:MM:SS.NNNNNNNNNZ` — 30 characters of
/// digits and the punctuation `-:.TZ`, so never a quote or a backslash.
#[verifier::external_body]
pub fn fmt_rfc3339(t: &Timestamp) -> (r: String)
    requires
        t.wf(),
    ensures
        r@ == rfc3339_of(t@),
        r@.len() == 30,
        forall|k: int| 0 <= k < r@.len() ==> r@[k] != '"' && r@[k] != '\\',
{
    chrono::DateTime::from_timestamp(t.secs, t.nanos)
        .unwrap()
        .to_rfc3339_opts(chrono::SecondsFormat::Nanos, true)
}

/// Relies on chrono's `DateTime::parse_from_rfc3339`: it parses the crate's
/// own canonical text back to the very instant it was formatted from (the
/// round trip chrono documents), and beyond that nothing is assumed of the
/// result — callers validate it and re-serialize to check it.
#[verifier::external_body]
pub fn parse_rfc3339(s: &str) -> (r: Option<Timestamp>)
    ensures
        forall|t: Timestamp| t.wf() && s@ == rfc3339_of(t@) ==> r == Some(t),
{
    match chrono::DateTime::parse_from_rfc3339(s) {
        Ok(dt) => Some(Timestamp { secs: dt.timestamp(), nanos: dt.timestamp_subsec_nanos() }),
        Err(_) => None,
    }
}

} // verus!
