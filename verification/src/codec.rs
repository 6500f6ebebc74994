//! The calls into base64, serde_json and chrono that the projections make,
//! each behind a contract.
use vstd::prelude::*;

use base64::Engine;
use chrono::{Datelike, TimeZone, Timelike};

use crate::text::char_width;

verus! {

// ---------------------------------------------------------------------------
// base64 (RFC 4648 section 5, URL- and filename-safe alphabet, no padding)
// ---------------------------------------------------------------------------

/// The symbol for a six-bit value.
pub open spec fn url_safe_symbol(v: int) -> char {
    if v < 26 {
        (65 + v) as char
    } else if v < 52 {
        (97 + v - 26) as char
    } else if v < 62 {
        (48 + v - 52) as char
    } else if v == 62 {
        '-'
    } else {
        '_'
    }
}

/// The unpadded URL-safe base64 text of some bytes: each group of three bytes
/// becomes four symbols; a final group of one or two bytes becomes two or
/// three symbols whose unused low bits are zero.
pub open spec fn base64_url(bytes: Seq<u8>) -> Seq<char>
    decreases bytes.len(),
{
    if bytes.len() == 0 {
        Seq::empty()
    } else if bytes.len() == 1 {
        seq![url_safe_symbol((bytes[0] as int) / 4), url_safe_symbol(((bytes[0] as int) % 4) * 16)]
    } else if bytes.len() == 2 {
        seq![
            url_safe_symbol((bytes[0] as int) / 4),
            url_safe_symbol(((bytes[0] as int) % 4) * 16 + (bytes[1] as int) / 16),
            url_safe_symbol(((bytes[1] as int) % 16) * 4),
        ]
    } else {
        seq![
            url_safe_symbol((bytes[0] as int) / 4),
            url_safe_symbol(((bytes[0] as int) % 4) * 16 + (bytes[1] as int) / 16),
            url_safe_symbol(((bytes[1] as int) % 16) * 4 + (bytes[2] as int) / 64),
            url_safe_symbol((bytes[2] as int) % 64),
        ] + base64_url(bytes.skip(3))
    }
}

/// `URL_SAFE_NO_PAD.encode`: the unpadded URL-safe base64 text of the bytes.
#[verifier::external_body]
pub(crate) fn base64_url_encode(bytes: &[u8]) -> (r: String)
    ensures
        r@ == base64_url(bytes@),
{
    base64::engine::general_purpose::URL_SAFE_NO_PAD.encode(bytes)
}

/// `URL_SAFE_NO_PAD.decode`: this engine refuses padding and nonzero trailing
/// bits, so it accepts exactly the texts that the encoder produces, and gives
/// back the bytes that were encoded.
#[verifier::external_body]
pub(crate) fn base64_url_decode(text: &str) -> (r: Option<Vec<u8>>)
    ensures
        r matches Some(bytes) ==> base64_url(bytes@) == text@,
        r is None ==> forall|bytes: Seq<u8>| #[trigger] base64_url(bytes) != text@,
{
    match base64::engine::general_purpose::URL_SAFE_NO_PAD.decode(text) {
        Ok(bytes) => Some(bytes),
        Err(_) => None,
    }
}

proof fn lemma_symbol(v: int)
    requires
        0 <= v < 64,
    ensures
        32 < url_safe_symbol(v) as u32 && (url_safe_symbol(v) as u32) < 127,
        forall|w: int| 0 <= w < 64 && url_safe_symbol(w) == url_safe_symbol(v) ==> w == v,
{
}

proof fn lemma_byte_digits(x: u8)
    ensures
        0 <= (x as int) / 4 < 64,
        0 <= (x as int) % 4 < 4,
        0 <= (x as int) / 16 < 16,
        0 <= (x as int) % 16 < 16,
        0 <= (x as int) / 64 < 4,
        0 <= (x as int) % 64 < 64,
        x as int == ((x as int) / 4) * 4 + (x as int) % 4,
        x as int == ((x as int) / 16) * 16 + (x as int) % 16,
        x as int == ((x as int) / 64) * 64 + (x as int) % 64,
{
}

/// The base64 text has `ceil(4n / 3)` symbols, all printable ASCII.
pub proof fn lemma_base64_url_shape(bytes: Seq<u8>)
    ensures
        base64_url(bytes).len() == (4 * bytes.len() + 2) / 3,
        forall|i: int|
            0 <= i < base64_url(bytes).len() ==> 32 < (#[trigger] base64_url(bytes)[i]) as u32
                && (base64_url(bytes)[i] as u32) < 127,
    decreases bytes.len(),
{
    let e = base64_url(bytes);
    if bytes.len() == 0 {
    } else {
        lemma_byte_digits(bytes[0]);
        lemma_symbol((bytes[0] as int) / 4);
        if bytes.len() == 1 {
            lemma_symbol(((bytes[0] as int) % 4) * 16);
        } else {
            lemma_byte_digits(bytes[1]);
            lemma_symbol(((bytes[0] as int) % 4) * 16 + (bytes[1] as int) / 16);
            if bytes.len() == 2 {
                lemma_symbol(((bytes[1] as int) % 16) * 4);
            } else {
                lemma_byte_digits(bytes[2]);
                lemma_symbol(((bytes[1] as int) % 16) * 4 + (bytes[2] as int) / 64);
                lemma_symbol((bytes[2] as int) % 64);
                lemma_base64_url_shape(bytes.skip(3));
                let rest = base64_url(bytes.skip(3));
                assert forall|i: int| 0 <= i < e.len() implies 32 < (#[trigger] e[i]) as u32
                    && (e[i] as u32) < 127 by {
                    if i >= 4 {
                        assert(e[i] == rest[i - 4]);
                    }
                }
            }
        }
    }
}

/// Different bytes have different base64 texts.
pub proof fn lemma_base64_url_injective(a: Seq<u8>, b: Seq<u8>)
    requires
        base64_url(a) == base64_url(b),
    ensures
        a == b,
    decreases a.len(),
{
    lemma_base64_url_shape(a);
    lemma_base64_url_shape(b);
    let ea = base64_url(a);
    let eb = base64_url(b);
    assert(a.len() == b.len()) by {
        if a.len() < b.len() {
            assert((4 * a.len() + 2) / 3 < (4 * b.len() + 2) / 3);
        } else if a.len() > b.len() {
            assert((4 * a.len() + 2) / 3 > (4 * b.len() + 2) / 3);
        }
    }
    if a.len() > 0 {
        lemma_byte_digits(a[0]);
        lemma_byte_digits(b[0]);
        lemma_symbol((a[0] as int) / 4);
        assert(ea[0] == eb[0]);
        assert((a[0] as int) / 4 == (b[0] as int) / 4);
        if a.len() == 1 {
            lemma_symbol(((a[0] as int) % 4) * 16);
            assert(ea[1] == eb[1]);
            assert(a[0] == b[0]);
            assert(a =~= b);
        } else {
            lemma_byte_digits(a[1]);
            lemma_byte_digits(b[1]);
            lemma_symbol(((a[0] as int) % 4) * 16 + (a[1] as int) / 16);
            assert(ea[1] == eb[1]);
            assert((a[0] as int) % 4 == (b[0] as int) % 4 && (a[1] as int) / 16 == (b[1] as int) / 16);
            assert(a[0] == b[0]);
            if a.len() == 2 {
                lemma_symbol(((a[1] as int) % 16) * 4);
                assert(ea[2] == eb[2]);
                assert(a[1] == b[1]);
                assert(a =~= b);
            } else {
                lemma_byte_digits(a[2]);
                lemma_byte_digits(b[2]);
                lemma_symbol(((a[1] as int) % 16) * 4 + (a[2] as int) / 64);
                lemma_symbol((a[2] as int) % 64);
                assert(ea[2] == eb[2]);
                assert(ea[3] == eb[3]);
                assert((a[1] as int) % 16 == (b[1] as int) % 16 && (a[2] as int) / 64 == (b[2] as int) / 64);
                assert(a[1] == b[1]);
                assert(a[2] == b[2]);
                assert(base64_url(a.skip(3)) =~= ea.skip(4));
                assert(base64_url(b.skip(3)) =~= eb.skip(4));
                lemma_base64_url_injective(a.skip(3), b.skip(3));
                assert(a =~= a.take(3) + a.skip(3));
                assert(b =~= b.take(3) + b.skip(3));
                assert(a.take(3) =~= b.take(3));
            }
        }
    } else {
        assert(a =~= b);
    }
}

// ---------------------------------------------------------------------------
// serde_json: the versioned `[version, account, remote]` token payload
// ---------------------------------------------------------------------------

/// The bytes that `serde_json::to_vec` writes for the JSON array
/// `[version, account, remote]`.
pub uninterp spec fn json_token(version: u64, account: Seq<char>, remote: Seq<char>) -> Seq<u8>;

/// What `serde_json::from_slice::<(u64, String, String)>` reads from some
/// bytes: `None` unless they hold exactly a three-element JSON array of a
/// non-negative integer and two strings.
pub uninterp spec fn json_token_fields(raw: Seq<u8>) -> Option<(u64, Seq<char>, Seq<char>)>;

/// `serde_json::to_vec(&(version, account, remote))`. The serialiser fails only
/// for a failing `Serialize` impl or a map with non-string keys, so it succeeds
/// here; its output is a JSON array, so it is not empty, and reading it back
/// gives the three values that were written.
#[verifier::external_body]
pub(crate) fn json_token_bytes(version: u64, account: &str, remote: &str) -> (r: Option<Vec<u8>>)
    ensures
        r is Some,
        r matches Some(bytes) ==> {
            &&& bytes@ == json_token(version, account@, remote@)
            &&& bytes@.len() > 0
            &&& json_token_fields(bytes@) == Some((version, account@, remote@))
        },
{
    match serde_json::to_vec(&(version, account, remote)) {
        Ok(bytes) => Some(bytes),
        Err(_) => None,
    }
}

/// `serde_json::from_slice::<(u64, String, String)>`.
#[verifier::external_body]
pub(crate) fn json_token_read(raw: &[u8]) -> (r: Option<(u64, String, String)>)
    ensures
        match r {
            Some(fields) => json_token_fields(raw@) == Some((fields.0, fields.1@, fields.2@)),
            None => json_token_fields(raw@) is None,
        },
{
    match serde_json::from_slice::<(u64, String, String)>(raw) {
        Ok(fields) => Some(fields),
        Err(_) => None,
    }
}

/// The bytes `serde_json` writes for one character of a string: `"` and `\\`
/// and the five controls with a short escape (backspace, tab, line feed, form
/// feed, carriage return) take two, the other controls below U+0020 the six of
/// `\u00XX`, and every other character its UTF-8 encoding.
pub open spec fn escaped_width(c: char) -> nat {
    let code = c as u32;
    if code == 0x22 || code == 0x5c || code == 0x08 || code == 0x09 || code == 0x0a || code == 0x0c || code == 0x0d {
        2
    } else if code < 0x20 {
        6
    } else {
        char_width(c)
    }
}

/// The length of what `serde_json::to_vec` writes for a JSON string: its two
/// quotes and each character as it is escaped.
pub open spec fn json_text_size(text: Seq<char>) -> nat
    decreases text.len(),
{
    if text.len() == 0 {
        2
    } else {
        json_text_size(text.drop_last()) + escaped_width(text.last())
    }
}

/// `serde_json::to_vec(text)`, by its length: the string's compact JSON text
/// (the escaping of `format_escaped_str_contents` with the `ESCAPE` table). A
/// string serialises into a `Vec` without error, so the result is always there.
#[verifier::external_body]
pub(crate) fn json_text_bytes(text: &str) -> (r: Option<usize>)
    ensures
        r is Some,
        r matches Some(n) ==> n == json_text_size(text@),
{
    match serde_json::to_vec(text) {
        Ok(bytes) => Some(bytes.len()),
        Err(_) => None,
    }
}

// ---------------------------------------------------------------------------
// chrono
// ---------------------------------------------------------------------------

/// What `Utc.timestamp_millis_opt(ms).single()` formatted with
/// `%Y-%m-%dT%H:%M:%S%.3f` gives; `None` outside chrono's range.
pub uninterp spec fn utc_text(ms: i64) -> Option<Seq<char>>;

/// What `DateTime::parse_from_rfc3339(text)` gives as `timestamp_millis`.
pub uninterp spec fn rfc3339_millis(text: Seq<char>) -> Option<i64>;

/// What `NaiveDateTime::parse_from_str(text, "%Y-%m-%dT%H:%M:%S%.f")` gives,
/// as the date's `num_days_from_ce`, the time's seconds from midnight and its
/// nanoseconds.
pub uninterp spec fn naive_date_time(text: Seq<char>) -> Option<(i32, u32, u32)>;

/// The `num_days_from_ce` of chrono's first date, `NaiveDate::MIN`
/// (January 1, 262144 BCE, the proleptic year -262143).
pub const FIRST_DAY: i32 = -95_746_129;

/// The `num_days_from_ce` of chrono's last date, `NaiveDate::MAX`
/// (December 31, 262142 CE).
pub const LAST_DAY: i32 = 95_745_399;

/// What `NaiveDate::checked_add_signed(TimeDelta::days(days))` gives for the
/// date with this `num_days_from_ce`, as the sum's `num_days_from_ce`: the
/// sum of the day numbers where both the date and the sum lie in chrono's
/// range of dates, and nothing otherwise.
pub open spec fn date_plus_days(day: i32, days: i64) -> Option<i32> {
    if FIRST_DAY <= day <= LAST_DAY && FIRST_DAY <= day + days <= LAST_DAY {
        Some((day + days) as i32)
    } else {
        None
    }
}

/// `Utc.timestamp_millis_opt(ms).single()` formatted as
/// `%Y-%m-%dT%H:%M:%S%.3f`; a function of `ms` alone.
#[verifier::external_body]
pub(crate) fn utc_text_of(ms: i64) -> (r: Option<String>)
    ensures
        match r {
            Some(text) => utc_text(ms) == Some(text@),
            None => utc_text(ms) is None,
        },
{
    match chrono::Utc.timestamp_millis_opt(ms).single() {
        Some(value) => Some(value.format("%Y-%m-%dT%H:%M:%S%.3f").to_string()),
        None => None,
    }
}

/// `DateTime::parse_from_rfc3339(text)` then `timestamp_millis`; a function
/// of the text alone.
#[verifier::external_body]
pub(crate) fn rfc3339_millis_of(text: &str) -> (r: Option<i64>)
    ensures
        r == rfc3339_millis(text@),
{
    match chrono::DateTime::parse_from_rfc3339(text) {
        Ok(value) => Some(value.timestamp_millis()),
        Err(_) => None,
    }
}

/// `NaiveDateTime::parse_from_str(text, "%Y-%m-%dT%H:%M:%S%.f")`, as the date's
/// day number from the common era, and the time's seconds from midnight and
/// nanoseconds; a function of the text alone.
#[verifier::external_body]
pub(crate) fn naive_date_time_of(text: &str) -> (r: Option<(i32, u32, u32)>)
    ensures
        r == naive_date_time(text@),
{
    match chrono::NaiveDateTime::parse_from_str(text, "%Y-%m-%dT%H:%M:%S%.f") {
        Ok(value) => Some(
            (
                value.date().num_days_from_ce(),
                value.time().num_seconds_from_midnight(),
                value.time().nanosecond(),
            ),
        ),
        Err(_) => None,
    }
}

/// `NaiveDate::checked_add_signed(TimeDelta::days(days))` on the date with day
/// number `day`: `from_num_days_from_ce_opt` gives a date exactly for the day
/// numbers of chrono's range, and `add_days` the date that many days on while
/// it stays in that range. `TimeDelta::days` panics beyond about 10^14 days,
/// which the precondition leaves out.
#[verifier::external_body]
pub(crate) fn date_plus_days_of(day: i32, days: i64) -> (r: Option<i32>)
    requires
        -1_000_000_000 <= days <= 1_000_000_000,
    ensures
        r == date_plus_days(day, days),
{
    match chrono::NaiveDate::from_num_days_from_ce_opt(day) {
        Some(date) => match date.checked_add_signed(chrono::TimeDelta::days(days)) {
            Some(sum) => Some(sum.num_days_from_ce()),
            None => None,
        },
        None => None,
    }
}

/// The instant of the UTC midnight of the day with this `num_days_from_ce`,
/// in milliseconds since the epoch (day 719 163 is 1970-01-01).
pub open spec fn utc_midnight_ms(day: i32) -> int {
    (day - 719_163) * 86_400_000
}

/// `Local.from_local_datetime(midnight of the day).earliest()` as
/// `timestamp_millis`. Which offset applies depends on the machine's time
/// zone, so the instant is not stated; chrono subtracts a `FixedOffset` of
/// whole seconds, less than a day either way, from the local midnight, so the
/// instant lies within a day of the UTC midnight, a whole number of seconds
/// from it. Whether a local midnight exists there is not stated either.
#[verifier::external_body]
pub(crate) fn local_midnight_millis(day: i32) -> (r: Option<i64>)
    ensures
        r matches Some(ms) ==> utc_midnight_ms(day) - 86_400_000 < ms < utc_midnight_ms(day) + 86_400_000
            && (ms - utc_midnight_ms(day)) % 1000 == 0,
{
    match chrono::NaiveDate::from_num_days_from_ce_opt(day) {
        Some(date) => match date.and_hms_opt(0, 0, 0) {
            Some(midnight) => match chrono::Local.from_local_datetime(&midnight).earliest() {
                Some(value) => Some(value.timestamp_millis()),
                None => None,
            },
            None => None,
        },
        None => None,
    }
}

} // verus!
