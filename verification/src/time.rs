//! Timestamps. A timestamp is a UTC instant held as whole seconds since the Unix
//! epoch and a nanosecond part, always one the `chrono` crate can represent.

use vstd::prelude::*;

verus! {

/// Whether `chrono::DateTime::<Utc>::from_timestamp(secs, nanos)` gives an instant.
pub uninterp spec fn chrono_accepts(secs: i64, nanos: u32) -> bool;

/// What `"...".parse::<chrono::DateTime<Utc>>()` gives for a text: the instant's
/// seconds and nanoseconds, or nothing when the text is not a date and time the
/// crate accepts.
pub uninterp spec fn timestamp_parse(s: Seq<char>) -> Option<(i64, u32)>;

/// The text `chrono` writes for an instant with `to_rfc3339_opts(SecondsFormat::Secs, true)`.
pub uninterp spec fn rfc3339_secs(secs: i64, nanos: u32) -> Seq<char>;

/// A character of an RFC 3339 UTC text in whole seconds: a digit, `-`, `:`, `T` or `Z`.
pub open spec fn stamp_char(c: char) -> bool {
    ('0' as u32 <= c as u32 && c as u32 <= '9' as u32) || c == '-' || c == ':' || c == 'T' || c == 'Z'
}

/// The shape of `YYYY-MM-DDTHH:MM:SSZ`: twenty such characters.
pub open spec fn stamp_shaped(s: Seq<char>) -> bool {
    s.len() == 20 && forall|i: int| 0 <= i < 20 ==> stamp_char(#[trigger] s[i])
}

/// Instants in the years 0000 to 9999, whose RFC 3339 text has a four-digit year.
pub open spec fn four_digit_year(secs: i64) -> bool {
    -62167219200 <= secs && secs <= 253402300799
}

/// A UTC instant.
#[derive(Clone, Copy, Debug, PartialEq, Eq, Structural)]
pub struct Timestamp {
    secs: i64,
    nanos: u32,
}

impl Timestamp {
    #[verifier::type_invariant]
    closed spec fn representable(self) -> bool {
        chrono_accepts(self.secs, self.nanos)
    }

    pub closed spec fn spec_secs(&self) -> i64 {
        self.secs
    }

    pub closed spec fn spec_nanos(&self) -> u32 {
        self.nanos
    }

    /// Seconds since the Unix epoch.
    #[verifier::when_used_as_spec(spec_secs)]
    pub fn secs(&self) -> (r: i64)
        ensures
            r == self.spec_secs(),
    {
        self.secs
    }

    /// Nanoseconds past the second.
    #[verifier::when_used_as_spec(spec_nanos)]
    pub fn nanos(&self) -> (r: u32)
        ensures
            r == self.spec_nanos(),
    {
        self.nanos
    }

    /// The instant `secs` seconds and `nanos` nanoseconds after the Unix epoch, when
    /// it can be represented.
    pub fn from_unix(secs: i64, nanos: u32) -> (r: Option<Timestamp>)
        ensures
            r is Some <==> chrono_accepts(secs, nanos),
            r matches Some(t) ==> t.secs() == secs && t.nanos() == nanos,
    {
        chrono_from_unix(secs, nanos)
    }

    /// The Unix epoch.
    pub fn epoch() -> (r: Timestamp)
        ensures
            r.secs() == 0,
            r.nanos() == 0,
    {
        chrono_epoch()
    }

    /// The current time.
    pub fn now() -> (r: Timestamp) {
        chrono_now()
    }

    /// The instant a date-and-time text denotes, if it is one.
    pub fn parse(s: &str) -> (r: Option<Timestamp>)
        ensures
            r matches Some(t) ==> timestamp_parse(s@) == Some((t.secs(), t.nanos())),
            r is None ==> timestamp_parse(s@) is None,
    {
        chrono_parse(s)
    }

    /// The RFC 3339 text of the instant, in whole seconds, with `Z` for UTC.
    pub fn to_rfc3339(&self) -> (r: String)
        ensures
            r@ == rfc3339_secs(self.secs(), self.nanos()),
            four_digit_year(self.secs()) ==> stamp_shaped(r@),
            self.nanos() == 0 && four_digit_year(self.secs()) ==> timestamp_parse(r@) == Some(
                (self.secs(), self.nanos()),
            ),
    {
        proof {
            use_type_invariant(self);
        }
        chrono_rfc3339(self.secs, self.nanos)
    }
}

/// `chrono::DateTime::<Utc>::from_timestamp(secs, nanos)`, kept as seconds and
/// nanoseconds: claimed to give an instant exactly when `chrono_accepts(secs, nanos)`.
#[verifier::external_body]
fn chrono_from_unix(secs: i64, nanos: u32) -> (r: Option<Timestamp>)
    ensures
        r is Some <==> chrono_accepts(secs, nanos),
        r matches Some(t) ==> t.spec_secs() == secs && t.spec_nanos() == nanos,
{
    match chrono::DateTime::<chrono::Utc>::from_timestamp(secs, nanos) {
        Some(d) => Some(Timestamp { secs: d.timestamp(), nanos: d.timestamp_subsec_nanos() }),
        None => None,
    }
}

/// `chrono::DateTime::<Utc>::default()`: claimed to be the Unix epoch, zero seconds and
/// zero nanoseconds, as the crate defines the default.
#[verifier::external_body]
fn chrono_epoch() -> (r: Timestamp)
    ensures
        r.spec_secs() == 0,
        r.spec_nanos() == 0,
{
    let d = chrono::DateTime::<chrono::Utc>::default();
    Timestamp { secs: d.timestamp(), nanos: d.timestamp_subsec_nanos() }
}

/// `chrono::Utc::now()`. Nothing is claimed of its value: it is the time of the call.
#[verifier::external_body]
fn chrono_now() -> (r: Timestamp) {
    let d = chrono::Utc::now();
    Timestamp { secs: d.timestamp(), nanos: d.timestamp_subsec_nanos() }
}

/// `s.parse::<chrono::DateTime<Utc>>()`: claimed to give `timestamp_parse(s)`.
#[verifier::external_body]
fn chrono_parse(s: &str) -> (r: Option<Timestamp>)
    ensures
        r matches Some(t) ==> timestamp_parse(s@) == Some((t.spec_secs(), t.spec_nanos())),
        r is None ==> timestamp_parse(s@) is None,
{
    match s.parse::<chrono::DateTime<chrono::Utc>>() {
        Ok(d) => Some(Timestamp { secs: d.timestamp(), nanos: d.timestamp_subsec_nanos() }),
        Err(_) => None,
    }
}

/// `to_rfc3339_opts(SecondsFormat::Secs, true)` of the instant `secs`/`nanos`: claimed to
/// be `rfc3339_secs(secs, nanos)`; for a four-digit year (0 to 9999) to have the shape
/// `YYYY-MM-DDTHH:MM:SSZ` the crate writes for those years, and to parse back to the same
/// instant when that is a whole second (the fraction is not written).
#[verifier::external_body]
fn chrono_rfc3339(secs: i64, nanos: u32) -> (r: String)
    requires
        chrono_accepts(secs, nanos),
    ensures
        r@ == rfc3339_secs(secs, nanos),
        four_digit_year(secs) ==> stamp_shaped(r@),
        nanos == 0 && four_digit_year(secs) ==> timestamp_parse(r@) == Some((secs, nanos)),
{
    chrono::DateTime::<chrono::Utc>::from_timestamp(secs, nanos).unwrap().to_rfc3339_opts(
        chrono::SecondsFormat::Secs,
        true,
    )
}

impl Default for Timestamp {
    fn default() -> (r: Timestamp)
        ensures
            r.secs() == 0,
            r.nanos() == 0,
    {
        Timestamp::epoch()
    }
}

} // verus!
