//! Time-derived note identifiers.
//!
//! An identifier packs a UTC timestamp, at second resolution, into a single
//! `u64` as fixed-width decimal digit groups: the Holocene-calendar year
//! (Gregorian year + 10000), then month, day, hour, minute and second.
//! Two identifiers generated within the same calendar second are equal by
//! construction; callers treat that as an expected collision, not a fault.
//!
//! The byte encoding is big-endian so that byte-by-byte lexicographic order
//! of encoded keys equals numeric order of identifiers, and therefore
//! chronological creation order.

use vstd::prelude::*;
use chrono::{Datelike, Timelike};

verus! {

/// A note identifier: the packed decimal timestamp described in the module
/// documentation.
#[derive(Clone, Copy, PartialEq, Eq, Structural, Debug)]
pub struct ZettelId(pub u64);

/// A wall-clock reading, split into calendar fields.
#[derive(Clone, Copy, PartialEq, Eq, Structural, Debug)]
pub struct ClockTime {
    pub year: i64,
    pub month: u64,
    pub day: u64,
    pub hour: u64,
    pub minute: u64,
    pub second: u64,
}

impl ClockTime {
    /// Field ranges every clock reading satisfies.
    pub open spec fn wf(self) -> bool {
        &&& -262143 <= self.year <= 262143
        &&& 1 <= self.month <= 12
        &&& 1 <= self.day <= 31
        &&& self.hour <= 23
        &&& self.minute <= 59
        &&& self.second <= 59
    }
}

/// The Holocene year of a Gregorian year: shifted forward by 10000, and
/// clamped at zero for (nonsensical) clock readings before the epoch.
pub open spec fn spec_holocene_year(year: i64) -> int {
    if year < -10000 {
        0
    } else {
        year + 10000
    }
}

/// The packed decimal form of a timestamp's fields.
pub open spec fn spec_pack_fields(
    hyear: int,
    month: int,
    day: int,
    hour: int,
    minute: int,
    second: int,
) -> int {
    hyear * 10_000_000_000 + month * 100_000_000 + day * 1_000_000 + hour * 10_000 + minute * 100
        + second
}

/// The identifier derived from a clock reading.
pub open spec fn spec_id_of_time(t: ClockTime) -> int {
    spec_pack_fields(
        spec_holocene_year(t.year),
        t.month as int,
        t.day as int,
        t.hour as int,
        t.minute as int,
        t.second as int,
    )
}

/// The big-endian byte encoding of an identifier's raw integer.
pub open spec fn spec_encode(v: u64) -> Seq<u8> {
    seq![
        (v >> 56) as u8,
        (v >> 48) as u8,
        (v >> 40) as u8,
        (v >> 32) as u8,
        (v >> 24) as u8,
        (v >> 16) as u8,
        (v >> 8) as u8,
        v as u8,
    ]
}

/// The integer read back from eight big-endian bytes.
pub open spec fn spec_decode(s: Seq<u8>) -> u64
    recommends
        s.len() == 8,
{
    (((s[0] as u64) << 56) | ((s[1] as u64) << 48) | ((s[2] as u64) << 40) | ((s[3] as u64) << 32)
        | ((s[4] as u64) << 24) | ((s[5] as u64) << 16) | ((s[6] as u64) << 8) | (s[7] as u64))
}

/// Relies on `chrono::Utc::now` and the `Datelike`/`Timelike` accessors:
/// `month()` is 1..=12, `day()` is 1..=31, `hour()` is 0..=23, `minute()`
/// is 0..=59, `second()` is 0..=59 (a leap second is carried in the
/// nanosecond field), and chrono's dates are limited to roughly
/// +/-262,000 years from the common epoch. `Utc::now` itself panics on a
/// system clock before the Unix epoch or outside chrono's date range; no
/// real clock reaches either.
#[verifier::external_body]
fn now_utc() -> (t: ClockTime)
    ensures
        t.wf(),
{
    let now = chrono::Utc::now();
    ClockTime {
        year: now.year() as i64,
        month: now.month() as u64,
        day: now.day() as u64,
        hour: now.hour() as u64,
        minute: now.minute() as u64,
        second: now.second() as u64,
    }
}

impl ZettelId {
    /// Derive the identifier for the current wall-clock second.
    ///
    /// This cannot fail; its one contract risk is the deliberate one-second
    /// resolution, which makes same-second collisions a capacity concern for
    /// callers rather than an error here.
    pub fn generate() -> (r: ZettelId)
        ensures
            exists|t: ClockTime| t.wf() && r.0 == spec_id_of_time(t),
    {
        let t = now_utc();
        let r = ZettelId::from_time(&t);
        proof {
            assert(t.wf() && r.0 == spec_id_of_time(t));
        }
        r
    }

    /// Pack a clock reading into an identifier.
    pub fn from_time(t: &ClockTime) -> (r: ZettelId)
        requires
            t.wf(),
        ensures
            r.0 == spec_id_of_time(*t),
    {
        let hyear: u64 = if t.year < -10000 {
            0
        } else {
            (t.year + 10000) as u64
        };
        ZettelId(
            hyear * 10_000_000_000 + t.month * 100_000_000 + t.day * 1_000_000 + t.hour * 10_000
                + t.minute * 100 + t.second,
        )
    }

    /// Encode the identifier as eight big-endian bytes, the form used as a
    /// store key: byte-wise lexicographic order of keys then equals
    /// chronological order of identifiers.
    pub fn encode(&self) -> (r: [u8; 8])
        ensures
            r@ == spec_encode(self.0),
    {
        let v = self.0;
        [
            (v >> 56) as u8,
            (v >> 48) as u8,
            (v >> 40) as u8,
            (v >> 32) as u8,
            (v >> 24) as u8,
            (v >> 16) as u8,
            (v >> 8) as u8,
            v as u8,
        ]
    }

    /// Read an identifier back from its eight big-endian bytes.
    pub fn decode(bytes: [u8; 8]) -> (r: ZettelId)
        ensures
            r.0 == spec_decode(bytes@),
    {
        ZettelId(
            ((bytes[0] as u64) << 56) | ((bytes[1] as u64) << 48) | ((bytes[2] as u64) << 40)
                | ((bytes[3] as u64) << 32) | ((bytes[4] as u64) << 24) | ((bytes[5] as u64) << 16)
                | ((bytes[6] as u64) << 8) | (bytes[7] as u64),
        )
    }
}

/// Decoding inverts encoding: every identifier survives the round trip
/// through its byte encoding.
pub proof fn lemma_decode_encode(v: u64)
    ensures
        spec_decode(spec_encode(v)) == v,
{
    assert((((((v >> 56) as u8) as u64) << 56) | ((((v >> 48) as u8) as u64) << 48) | ((((v
        >> 40) as u8) as u64) << 40) | ((((v >> 32) as u8) as u64) << 32) | ((((v
        >> 24) as u8) as u64) << 24) | ((((v >> 16) as u8) as u64) << 16) | ((((v
        >> 8) as u8) as u64) << 8) | ((v as u8) as u64)) == v) by (bit_vector);
}

} // verus!
