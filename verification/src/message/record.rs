//! One immutable event in a channel log: the record that one line of the
//! underlying JSON Lines file holds.

use vstd::prelude::*;

use crate::message::id::{generator_last, random_bits_full};

verus! {

/// Whether `chrono` represents the UTC instant `secs` seconds and `nanos`
/// nanoseconds after the Unix epoch (`DateTime::from_timestamp` gives `Some`).
pub uninterp spec fn chrono_accepts(secs: i64, nanos: u32) -> bool;

/// The RFC 3339 text that `chrono` writes for that instant in UTC, such as
/// `2026-05-22T08:30:12+00:00`.
pub uninterp spec fn chrono_rfc3339(secs: i64, nanos: u32) -> Seq<char>;

/// Trusted: `chrono::DateTime::from_timestamp(secs, nanos).is_some()`, a
/// function of its arguments alone (range of the date, nanoseconds below two
/// seconds and above one only at a leap second), named `chrono_accepts`.
#[verifier::external_body]
fn datetime_accepts(secs: i64, nanos: u32) -> (r: bool)
    ensures
        r == chrono_accepts(secs, nanos),
{
    chrono::DateTime::from_timestamp(secs, nanos).is_some()
}

/// Trusted: `chrono::DateTime::<Utc>::to_rfc3339`, on the instant that
/// `from_timestamp(secs, nanos)` builds (which `requires` makes `Some`). The
/// text is a function of the instant alone, named `chrono_rfc3339`; the
/// calendar arithmetic behind it is not restated.
#[verifier::external_body]
fn rfc3339_text(secs: i64, nanos: u32) -> (r: String)
    requires
        chrono_accepts(secs, nanos),
    ensures
        r@ == chrono_rfc3339(secs, nanos),
{
    chrono::DateTime::from_timestamp(secs, nanos).unwrap().to_rfc3339()
}

/// Trusted: `chrono::Utc::now`, taken apart into `timestamp()` and
/// `timestamp_subsec_nanos()`. Nothing is stated of the instant; that
/// `from_timestamp` rebuilds it is what chrono documents for these two parts.
#[verifier::external_body]
fn clock_now() -> (r: (i64, u32))
    ensures
        chrono_accepts(r.0, r.1),
{
    let now = chrono::Utc::now();
    (now.timestamp(), now.timestamp_subsec_nanos())
}

/// A UTC instant: seconds and nanoseconds after the Unix epoch, always one
/// that `chrono` can represent.
#[derive(Clone, Copy, Debug, PartialEq, Eq)]
pub struct Timestamp {
    secs: i64,
    nanos: u32,
}

impl View for Timestamp {
    type V = (i64, u32);

    closed spec fn view(&self) -> (i64, u32) {
        (self.secs, self.nanos)
    }
}

impl Timestamp {
    #[verifier::type_invariant]
    spec fn representable(self) -> bool {
        chrono_accepts(self.secs, self.nanos)
    }

    /// The instant `secs` seconds and `nanos` nanoseconds after the epoch, if
    /// `chrono` can represent it.
    pub fn from_unix(secs: i64, nanos: u32) -> (r: Option<Timestamp>)
        ensures
            r is Some <==> chrono_accepts(secs, nanos),
            r matches Some(t) ==> t@ == (secs, nanos),
    {
        if datetime_accepts(secs, nanos) {
            Some(Timestamp { secs, nanos })
        } else {
            None
        }
    }

    /// The current instant.
    pub fn now() -> Timestamp {
        let (secs, nanos) = clock_now();
        Timestamp { secs, nanos }
    }

    /// Whole seconds since the epoch.
    pub fn secs(&self) -> (r: i64)
        ensures
            r == self@.0,
    {
        self.secs
    }

    /// Nanoseconds past the whole second.
    pub fn nanos(&self) -> (r: u32)
        ensures
            r == self@.1,
    {
        self.nanos
    }

    /// The RFC 3339 text of the instant (`DateTime::to_rfc3339`).
    pub fn to_rfc3339(&self) -> (r: String)
        ensures
            r@ == chrono_rfc3339(self@.0, self@.1),
    {
        proof {
            use_type_invariant(self);
        }
        rfc3339_text(self.secs, self.nanos)
    }
}

/// One immutable event in a channel log. Corresponds to a single line in the
/// underlying JSON Lines file.
#[derive(Debug, PartialEq, Eq)]
pub struct Message {
    /// ULID: 26 characters as text, lexicographically ordered = time-ordered.
    pub id: u128,
    /// Send-time timestamp (RFC 3339, UTC, in the log).
    pub ts: Timestamp,
    /// Sender's self-declared label.
    pub from: String,
    /// Plain-text body. May contain newlines; serialized as a JSON string.
    pub body: String,
}

impl Message {
    /// Builds a new `Message` stamped with the current time and a fresh ULID
    /// from `generator`: larger than the generator's last id, unless that id's
    /// random bits are all ones (see `now_ulid`).
    pub fn new(generator: &mut ulid::Generator, from: String, body: String) -> (r: Message)
        ensures
            r.from == from,
            r.body == body,
            (r.id > generator_last(*old(generator)) && generator_last(*final(generator)) == r.id)
                || (random_bits_full(generator_last(*old(generator))) && generator_last(
                *final(generator),
            ) == generator_last(*old(generator))),
            !random_bits_full(generator_last(*old(generator))) ==> r.id > generator_last(
                *old(generator),
            ) && generator_last(*final(generator)) == r.id,
    {
        Message { id: crate::message::id::now_ulid(generator), ts: Timestamp::now(), from, body }
    }
}

} // verus!
