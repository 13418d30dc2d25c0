//! Points in time, UTC, to the nanosecond, within the range `chrono` represents.
use crate::cbor::{enc_text, starts_with_at};
use crate::decode::{bytes_equal, parse_text};
use vstd::prelude::*;

verus! {

/// The first second `chrono::DateTime<Utc>` represents (year -262143).
pub const MIN_SECS: i64 = -8334601315200;

/// The last second `chrono::DateTime<Utc>` represents (year 262142).
pub const MAX_SECS: i64 = 8210266876799;

pub open spec fn timestamp_valid(secs: i64, nanos: u32) -> bool {
    MIN_SECS <= secs <= MAX_SECS && nanos < 1_000_000_000
}

/// The RFC 3339 text that `chrono` writes when it serialises the `DateTime<Utc>`
/// of `secs` seconds and `nanos` nanoseconds after the epoch.
pub uninterp spec fn rfc3339_text(secs: i64, nanos: u32) -> Seq<u8>;

/// Whole seconds from `(b_secs, b_nanos)` to `(a_secs, a_nanos)`, rounded toward zero.
pub open spec fn seconds_between(a_secs: i64, a_nanos: u32, b_secs: i64, b_nanos: u32) -> int {
    let d = (a_secs - b_secs) * 1_000_000_000 + (a_nanos - b_nanos);
    if d >= 0 {
        d / 1_000_000_000
    } else {
        -((-d) / 1_000_000_000)
    }
}

/// Calls `Utc::now()`. Trusted, from chrono's source, to be after the epoch
/// (chrono panics before it), within range and without a leap second; nothing is
/// said of which moment it is.
#[verifier::external_body]
fn now_parts() -> (r: (i64, u32))
    ensures
        0 <= r.0 <= MAX_SECS,
        r.1 < 1_000_000_000,
{
    let now = chrono::Utc::now();
    (now.timestamp(), now.timestamp_subsec_nanos())
}

/// Calls `DateTime::from_timestamp` and `to_rfc3339_opts(SecondsFormat::AutoSi, true)`,
/// the form in which chrono's `Serialize` writes a `DateTime<Utc>`. The text is named,
/// not stated.
#[verifier::external_body]
fn rfc3339(secs: i64, nanos: u32) -> (r: Vec<u8>)
    requires
        timestamp_valid(secs, nanos),
    ensures
        r@ == rfc3339_text(secs, nanos),
{
    match chrono::DateTime::from_timestamp(secs, nanos) {
        Some(t) => t.to_rfc3339_opts(chrono::SecondsFormat::AutoSi, true).into_bytes(),
        None => Vec::new(),
    }
}

/// The whole seconds from one moment to another, rounded toward zero, as chrono's
/// `DateTime - DateTime` and `TimeDelta::num_seconds` give them.
fn elapsed(a_secs: i64, a_nanos: u32, b_secs: i64, b_nanos: u32) -> (r: i64)
    requires
        timestamp_valid(a_secs, a_nanos),
        timestamp_valid(b_secs, b_nanos),
    ensures
        r == seconds_between(a_secs, a_nanos, b_secs, b_nanos),
{
    let d: i128 = (a_secs as i128 - b_secs as i128) * 1_000_000_000 + (a_nanos as i128 - b_nanos as i128);
    if d >= 0 {
        (d / 1_000_000_000) as i64
    } else {
        let q: i128 = (-d) / 1_000_000_000;
        (-q) as i64
    }
}

/// What chrono's `Deserialize` for `DateTime<Utc>` gives for the text (as
/// seconds and nanoseconds after the epoch), where it accepts it.
pub uninterp spec fn rfc3339_parsed(text: Seq<u8>) -> Option<(i64, u32)>;

/// Parses the text as chrono's `Deserialize` for `DateTime<Utc>` does: as a
/// `DateTime<FixedOffset>` (`FromStr`), then converted to UTC. Trusted, as chrono
/// documents for its serde form, to read back a moment from the text its
/// `Serialize` writes for it.
#[verifier::external_body]
fn parse_rfc3339(text: &[u8]) -> (r: Option<(i64, u32)>)
    ensures
        r == rfc3339_parsed(text@),
        forall|secs: i64, nanos: u32|
            timestamp_valid(secs, nanos) && text@ == rfc3339_text(secs, nanos) ==> r == Some(
                (secs, nanos),
            ),
{
    match std::str::from_utf8(text) {
        Ok(s) => match s.parse::<chrono::DateTime<chrono::FixedOffset>>() {
            Ok(t) => {
                let u = t.with_timezone(&chrono::Utc);
                Some((u.timestamp(), u.timestamp_subsec_nanos()))
            },
            Err(_) => None,
        },
        Err(_) => None,
    }
}

#[derive(Clone, Copy, Debug, PartialEq, Eq, Structural)]
pub struct Timestamp {
    secs: i64,
    nanos: u32,
}

impl Timestamp {
    #[verifier::type_invariant]
    spec fn inv(self) -> bool {
        timestamp_valid(self.secs, self.nanos)
    }

    /// Seconds since the epoch.
    pub closed spec fn secs(self) -> i64 {
        self.secs
    }

    /// Nanoseconds past the second.
    pub closed spec fn nanos(self) -> u32 {
        self.nanos
    }

    /// The current time.
    pub fn now() -> (r: Timestamp)
        ensures
            0 <= r.secs(),
            timestamp_valid(r.secs(), r.nanos()),
    {
        let (secs, nanos) = now_parts();
        Timestamp { secs, nanos }
    }

    /// The moment `secs` seconds and `nanos` nanoseconds after the epoch, where
    /// chrono represents it without a leap second.
    pub fn from_parts(secs: i64, nanos: u32) -> (r: Option<Timestamp>)
        ensures
            r is Some <==> timestamp_valid(secs, nanos),
            r matches Some(t) ==> t.secs() == secs && t.nanos() == nanos,
    {
        if MIN_SECS <= secs && secs <= MAX_SECS && nanos < 1_000_000_000 {
            Some(Timestamp { secs, nanos })
        } else {
            None
        }
    }

    pub fn timestamp(&self) -> (r: i64)
        ensures
            r == self.secs(),
    {
        self.secs
    }

    pub fn subsec_nanos(&self) -> (r: u32)
        ensures
            r == self.nanos(),
    {
        self.nanos
    }

    /// The RFC 3339 text of this moment.
    pub fn to_rfc3339(&self) -> (r: Vec<u8>)
        ensures
            r@ == rfc3339_text(self.secs(), self.nanos()),
    {
        proof {
            use_type_invariant(self);
        }
        rfc3339(self.secs, self.nanos)
    }

    /// Whole seconds from `earlier` to this moment, rounded toward zero.
    pub fn seconds_since(&self, earlier: &Timestamp) -> (r: i64)
        ensures
            r == seconds_between(self.secs(), self.nanos(), earlier.secs(), earlier.nanos()),
    {
        proof {
            use_type_invariant(self);
            use_type_invariant(earlier);
        }
        elapsed(self.secs, self.nanos, earlier.secs, earlier.nanos)
    }
}

/// Two moments with the same seconds and nanoseconds are the same.
pub proof fn lemma_timestamp_ext(a: Timestamp, b: Timestamp)
    requires
        a.secs() == b.secs(),
        a.nanos() == b.nanos(),
    ensures
        a == b,
{
}

/// A moment written as its RFC 3339 text.
pub open spec fn enc_timestamp(t: Timestamp) -> Seq<u8> {
    enc_text(rfc3339_text(t.secs(), t.nanos()))
}

/// A moment written as RFC 3339 text; only the text `Serialize` writes for it is
/// read back.
pub fn parse_timestamp(data: &[u8], pos: usize) -> (r: Option<(Timestamp, usize)>)
    ensures
        r matches Some((t, end)) ==> timestamp_valid(t.secs(), t.nanos()) && starts_with_at(
            data@,
            pos as int,
            enc_timestamp(t),
        ) && end == pos + enc_timestamp(t).len(),
        forall|t: Timestamp|
            timestamp_valid(t.secs(), t.nanos()) && #[trigger] starts_with_at(
                data@,
                pos as int,
                enc_timestamp(t),
            ) ==> r == Some((t, (pos + enc_timestamp(t).len()) as usize)),
{
    let (text, end) = match parse_text(data, pos) {
        Some(x) => x,
        None => {
            return None;
        },
    };
    let (secs, nanos) = match parse_rfc3339(text.as_slice()) {
        Some(x) => x,
        None => {
            return None;
        },
    };
    let t = match Timestamp::from_parts(secs, nanos) {
        Some(t) => t,
        None => {
            return None;
        },
    };
    let written = rfc3339(secs, nanos);
    if !bytes_equal(written.as_slice(), text.as_slice()) {
        return None;
    }
    proof {
        assert forall|u: Timestamp|
            timestamp_valid(u.secs(), u.nanos()) && #[trigger] starts_with_at(
                data@,
                pos as int,
                enc_timestamp(u),
            ) implies u == t by {
            lemma_timestamp_ext(u, t);
        }
    }
    Some((t, end))
}

} // verus!
