//! Read-only JMAP Calendars projection for the protocol-neutral calendar RPCs.
use vstd::prelude::*;

use crate::codec::{
    date_plus_days, date_plus_days_of, local_midnight_millis, utc_midnight_ms, naive_date_time, naive_date_time_of,
    rfc3339_millis, rfc3339_millis_of, utc_text, utc_text_of, base64_url, base64_url_decode, base64_url_encode, json_token, json_token_bytes,
    json_token_fields, json_token_read, lemma_base64_url_injective, lemma_base64_url_shape,
};
use crate::order::{
    key_is, lemma_filter_map, lemma_map_multiset, lex_le, push_text_key, sort_by_key, text_key, values_of, with_key,
};
use crate::json::{
    json_size, json_size_of,
    integer, int_tree, array, array_of, at, field_trees, is_null, is_object, is_true, lemma_lookup_first, lemma_trees_push, lookup, object,
    object_of, opt_tree, str_of, text, text_list, trees, Json, JsonTree,
};
use crate::providers::jmap::{
    bounded_id, collect, count_distinct, distinct_count, seen_text, strings, lemma_collect_err, lemma_collect_keeps, lemma_collect_origin, lemma_collect_step, valid_id, validate_object,
    validate_object_spec, INVALID_RESPONSE, MAX_BODY, MAX_OBJECT_FIELDS, TOO_LARGE,
};
use crate::text::{
    to_uppercase, uppercase, chars_of, byte_len, byte_len_within, clean, has_control, prefix,
    str_has_control, without_controls,
};

verus! {

pub const CORE: &'static str = "urn:ietf:params:jmap:core";

pub const CALENDARS: &'static str = "urn:ietf:params:jmap:calendars";

pub const TOKEN_VERSION: u64 = 1;

pub const MAX_TOKEN: usize = 32768;

pub const MAX_TEXT_BYTES: usize = 16384;

pub const MAX_TEXT_CHARS: usize = 4096;

pub const MAX_CALENDARS: usize = 256;

pub const MAX_EVENTS: usize = 10000;

pub const MAX_QUERY_PAGES: usize = 256;

pub const MAX_LOCATIONS: usize = 256;

pub const MAX_PARTICIPANTS: usize = 1024;

pub const NOT_SUPPORTED: &'static str = "calendar_not_supported";

pub const SOURCE_UNKNOWN: &'static str = "calendar_source_unknown";

pub const INVALID_PARAMS: &'static str = "invalid_params";

pub open spec fn str_result(r: Result<&str, &'static str>) -> Result<Seq<char>, Seq<char>> {
    match r {
        Ok(s) => Ok(s@),
        Err(e) => Err(e@),
    }
}

pub open spec fn string_result(r: Result<String, &'static str>) -> Result<Seq<char>, Seq<char>> {
    match r {
        Ok(s) => Ok(s@),
        Err(e) => Err(e@),
    }
}

// ---------------------------------------------------------------------------
// Capability and calendar rights
// ---------------------------------------------------------------------------

/// The account that serves calendars: the session must advertise the
/// capability, name a primary calendar account, and that account must carry it.
pub open spec fn calendar_account_spec(document: JsonTree) -> Result<Seq<char>, Seq<char>> {
    if document.at("capabilities"@).at(CALENDARS@).as_object() is None {
        Err(NOT_SUPPORTED@)
    } else {
        match document.at("primaryAccounts"@).at(CALENDARS@).as_str() {
            None => Err(NOT_SUPPORTED@),
            Some(account) => if !valid_id(account) {
                Err(INVALID_RESPONSE@)
            } else if document.at("accounts"@).at(account).at("accountCapabilities"@).at(
                CALENDARS@,
            ).as_object() is None {
                Err(NOT_SUPPORTED@)
            } else {
                Ok(account)
            },
        }
    }
}

/// Resolves the primary calendar account of a JMAP session document.
pub fn calendar_account(document: &Json) -> (r: Result<&str, &'static str>)
    ensures
        str_result(r) == calendar_account_spec(document.tree()),
{
    let capabilities = at(at(Some(document), "capabilities"), CALENDARS);
    if !is_object(capabilities) {
        return Err(NOT_SUPPORTED);
    }
    let account = match str_of(at(at(Some(document), "primaryAccounts"), CALENDARS)) {
        Some(account) => account,
        None => return Err(NOT_SUPPORTED),
    };
    bounded_id(account)?;
    let capability = at(at(at(at(Some(document), "accounts"), account), "accountCapabilities"), CALENDARS);
    if !is_object(capability) {
        return Err(NOT_SUPPORTED);
    }
    Ok(account)
}

/// A calendar whose items may be read and that is subscribed or the default.
pub open spec fn visible_readable_spec(calendar: JsonTree) -> bool {
    calendar.at("myRights"@).at("mayReadItems"@).is_true() && (calendar.at("isSubscribed"@).is_true()
        || calendar.at("isDefault"@).is_true())
}

pub fn visible_readable(calendar: &Json) -> (r: bool)
    ensures
        r == visible_readable_spec(calendar.tree()),
{
    is_true(at(at(Some(calendar), "myRights"), "mayReadItems")) && (is_true(
        at(Some(calendar), "isSubscribed"),
    ) || is_true(at(Some(calendar), "isDefault")))
}

// ---------------------------------------------------------------------------
// Text and numbers from the server
// ---------------------------------------------------------------------------

/// Server text: refused above `MAX_TEXT_BYTES` bytes, otherwise stripped of
/// control characters and cut to `MAX_TEXT_CHARS` characters.
pub open spec fn clean_text_spec(value: Seq<char>) -> Result<Seq<char>, Seq<char>> {
    if byte_len(value) > MAX_TEXT_BYTES {
        Err(TOO_LARGE@)
    } else {
        Ok(prefix(without_controls(value), MAX_TEXT_CHARS as int))
    }
}

pub fn clean_text(value: &str) -> (r: Result<String, &'static str>)
    ensures
        string_result(r) == clean_text_spec(value@),
{
    if !byte_len_within(value, MAX_TEXT_BYTES) {
        return Err(TOO_LARGE);
    }
    Ok(clean(value, MAX_TEXT_CHARS))
}

/// A non-negative integer that fits `usize`.
pub open spec fn usize_value_spec(value: JsonTree) -> Result<usize, Seq<char>> {
    match value.as_u64() {
        Some(n) => if n <= usize::MAX {
            Ok(n as usize)
        } else {
            Err(INVALID_RESPONSE@)
        },
        None => Err(INVALID_RESPONSE@),
    }
}

pub open spec fn usize_result(r: Result<usize, &'static str>) -> Result<usize, Seq<char>> {
    match r {
        Ok(n) => Ok(n),
        Err(e) => Err(e@),
    }
}

pub fn usize_value(value: Option<&Json>) -> (r: Result<usize, &'static str>)
    ensures
        usize_result(r) == usize_value_spec(opt_tree(value)),
{
    let n = match value {
        Some(v) => match v.as_u64() {
            Some(n) => n,
            None => return Err(INVALID_RESPONSE),
        },
        None => return Err(INVALID_RESPONSE),
    };
    if n <= usize::MAX as u64 {
        Ok(n as usize)
    } else {
        Err(INVALID_RESPONSE)
    }
}

// ---------------------------------------------------------------------------
// Opaque source and event tokens
// ---------------------------------------------------------------------------

/// Only ASCII: each character is one byte.
proof fn lemma_ascii_byte_len(s: Seq<char>)
    requires
        forall|i: int| 0 <= i < s.len() ==> (#[trigger] s[i] as u32) < 0x80,
    ensures
        byte_len(s) == s.len(),
    decreases s.len(),
{
    if s.len() > 0 {
        lemma_ascii_byte_len(s.drop_last());
    }
}

/// An account identifier that a token may carry.
pub open spec fn token_account_ok(account: Seq<char>) -> bool {
    account.len() > 0 && byte_len(account) <= 512 && !has_control(account)
}

/// The source token of a remote calendar: the unpadded URL-safe base64 of
/// the JSON array `[TOKEN_VERSION, account, remote]`.
pub open spec fn encode_token_spec(account: Seq<char>, remote: Seq<char>) -> Result<Seq<char>, Seq<char>> {
    if !valid_id(remote) {
        Err(INVALID_RESPONSE@)
    } else if !token_account_ok(account) {
        Err(INVALID_PARAMS@)
    } else {
        let token = base64_url(json_token(TOKEN_VERSION, account, remote));
        if byte_len(token) > MAX_TOKEN {
            Err(TOO_LARGE@)
        } else {
            Ok(token)
        }
    }
}

/// The remote calendar that a source token names for an account.
pub open spec fn decode_token_spec(token: Seq<char>, account: Seq<char>) -> Result<Seq<char>, Seq<char>> {
    if token.len() == 0 || byte_len(token) > MAX_TOKEN || has_control(token) {
        Err(SOURCE_UNKNOWN@)
    } else if !(exists|raw: Seq<u8>| base64_url(raw) == token) {
        Err(SOURCE_UNKNOWN@)
    } else {
        let raw = choose|raw: Seq<u8>| base64_url(raw) == token;
        if raw.len() > MAX_TOKEN {
            Err(SOURCE_UNKNOWN@)
        } else {
            match json_token_fields(raw) {
                Some((version, owner, remote)) => if version == TOKEN_VERSION && owner == account
                    && valid_id(remote) {
                    Ok(remote)
                } else {
                    Err(SOURCE_UNKNOWN@)
                },
                None => Err(SOURCE_UNKNOWN@),
            }
        }
    }
}

/// Encodes an account-scoped source token. A token it gives back reads back,
/// for the same account, as the remote calendar id, and names no calendar for
/// any other account.
pub fn encode_token(account: &str, remote: &str) -> (r: Result<String, &'static str>)
    ensures
        string_result(r) == encode_token_spec(account@, remote@),
        r matches Ok(token) ==> {
            &&& decode_token_spec(token@, account@) == Ok::<Seq<char>, Seq<char>>(remote@)
            &&& forall|other: Seq<char>|
                other != account@ ==> #[trigger] decode_token_spec(token@, other) == Err::<
                    Seq<char>,
                    Seq<char>,
                >(SOURCE_UNKNOWN@)
        },
{
    bounded_id(remote)?;
    if account.is_empty() || !byte_len_within(account, 512) || str_has_control(account) {
        return Err(INVALID_PARAMS);
    }
    let raw = match json_token_bytes(TOKEN_VERSION, account, remote) {
        Some(raw) => raw,
        None => return Err(INVALID_RESPONSE),
    };
    let token = base64_url_encode(raw.as_slice());
    if !byte_len_within(token.as_str(), MAX_TOKEN) {
        return Err(TOO_LARGE);
    }
    proof {
        lemma_token_reads_back(raw@, token@, account@, remote@);
    }
    Ok(token)
}

/// A token made of a JSON payload reads back as that payload.
proof fn lemma_token_reads_back(raw: Seq<u8>, token: Seq<char>, account: Seq<char>, remote: Seq<char>)
    requires
        token == base64_url(raw),
        raw.len() > 0,
        json_token_fields(raw) == Some((TOKEN_VERSION, account, remote)),
        byte_len(token) <= MAX_TOKEN,
        valid_id(remote),
    ensures
        decode_token_spec(token, account) == Ok::<Seq<char>, Seq<char>>(remote),
        forall|other: Seq<char>|
            other != account ==> #[trigger] decode_token_spec(token, other) == Err::<
                Seq<char>,
                Seq<char>,
            >(SOURCE_UNKNOWN@),
{
    lemma_base64_url_shape(raw);
    assert forall|i: int| 0 <= i < token.len() implies (#[trigger] token[i] as u32) < 0x80 by {}
    lemma_ascii_byte_len(token);
    assert(token.len() > 0);
    assert(!has_control(token)) by {
        assert forall|i: int| 0 <= i < token.len() implies !crate::text::is_control(
            #[trigger] token[i],
        ) by {}
    }
    assert(exists|b: Seq<u8>| base64_url(b) == token);
    let chosen = choose|b: Seq<u8>| base64_url(b) == token;
    lemma_base64_url_injective(chosen, raw);
    assert(raw.len() <= token.len());
}

/// Reads the remote calendar id out of an account-scoped source token.
pub fn decode_token(token: &str, account: &str) -> (r: Result<String, &'static str>)
    ensures
        string_result(r) == decode_token_spec(token@, account@),
{
    if token.is_empty() || !byte_len_within(token, MAX_TOKEN) || str_has_control(token) {
        return Err(SOURCE_UNKNOWN);
    }
    let raw = match base64_url_decode(token) {
        Some(raw) => raw,
        None => return Err(SOURCE_UNKNOWN),
    };
    proof {
        let chosen = choose|b: Seq<u8>| base64_url(b) == token@;
        lemma_base64_url_injective(chosen, raw@);
    }
    if raw.len() > MAX_TOKEN {
        return Err(SOURCE_UNKNOWN);
    }
    let (version, owner, remote) = match json_token_read(raw.as_slice()) {
        Some(fields) => fields,
        None => return Err(SOURCE_UNKNOWN),
    };
    if version != TOKEN_VERSION || !crate::text::str_eq(owner.as_str(), account) {
        return Err(SOURCE_UNKNOWN);
    }
    match bounded_id(remote.as_str()) {
        Ok(_) => Ok(remote),
        Err(_) => Err(SOURCE_UNKNOWN),
    }
}

/// The identifier of an event row: base64 of `[TOKEN_VERSION, source, remote]`.
pub open spec fn event_token_spec(source: Seq<char>, remote: Seq<char>) -> Result<Seq<char>, Seq<char>> {
    if !valid_id(remote) {
        Err(INVALID_RESPONSE@)
    } else {
        let token = base64_url(json_token(TOKEN_VERSION, source, remote));
        if byte_len(token) > 2 * MAX_TOKEN {
            Err(TOO_LARGE@)
        } else {
            Ok(token)
        }
    }
}

pub fn event_token(source: &str, remote: &str) -> (r: Result<String, &'static str>)
    ensures
        string_result(r) == event_token_spec(source@, remote@),
{
    let remote = bounded_id(remote)?;
    let raw = match json_token_bytes(TOKEN_VERSION, source, remote) {
        Some(raw) => raw,
        None => return Err(INVALID_RESPONSE),
    };
    let token = base64_url_encode(raw.as_slice());
    if !byte_len_within(token.as_str(), 2 * MAX_TOKEN) {
        return Err(TOO_LARGE);
    }
    Ok(token)
}

// ---------------------------------------------------------------------------
// Calendar sources
// ---------------------------------------------------------------------------

/// The protocol-neutral source of a readable calendar.
pub open spec fn source_json(token: Seq<char>, account: Seq<char>, name: Seq<char>, calendar: JsonTree) -> JsonTree {
    JsonTree::Object(
        seq![
            ("id"@, JsonTree::Str(token)),
            ("accountId"@, JsonTree::Str(account)),
            ("kind"@, JsonTree::Str("account"@)),
            ("name"@, JsonTree::Str(if name.len() == 0 { "Calendar"@ } else { name })),
            ("enabled"@, JsonTree::Bool(
                calendar.at("isSubscribed"@).is_true() && calendar.at("isVisible"@).is_true(),
            )),
            ("default"@, JsonTree::Bool(calendar.at("isDefault"@).is_true())),
            ("subscribed"@, JsonTree::Bool(calendar.at("isSubscribed"@).is_true())),
            ("readOnly"@, JsonTree::Bool(true)),
        ],
    )
}

/// What one calendar contributes: it must be a bounded object with a valid
/// id; only a visible readable calendar becomes a source.
pub open spec fn source_row(account: Seq<char>, calendar: JsonTree) -> Result<Option<JsonTree>, Seq<char>> {
    match validate_object_spec(calendar) {
        Err(e) => Err(e),
        Ok(_) => match calendar.at("id"@).as_str() {
            None => Err(INVALID_RESPONSE@),
            Some(remote) => if !valid_id(remote) {
                Err(INVALID_RESPONSE@)
            } else if !visible_readable_spec(calendar) {
                Ok(None)
            } else {
                match clean_text_spec(calendar.at("name"@).str_or(Seq::empty())) {
                    Err(e) => Err(e),
                    Ok(name) => match encode_token_spec(account, remote) {
                        Err(e) => Err(e),
                        Ok(token) => Ok(Some(source_json(token, account, name, calendar))),
                    },
                }
            },
        },
    }
}

pub open spec fn sources_of_spec(account: Seq<char>, calendars: Seq<JsonTree>) -> Result<JsonTree, Seq<char>> {
    if calendars.len() > MAX_CALENDARS {
        Err(TOO_LARGE@)
    } else {
        match collect(calendars, |c: JsonTree| source_row(account, c)) {
            Err(e) => Err(e),
            Ok(rows) => Ok(JsonTree::Object(seq![("sources"@, JsonTree::Array(rows))])),
        }
    }
}

/// The source a listing shows for a calendar: from a calendar the user may
/// read that is its default or subscribed one, under the calendar's token for
/// the account, with its cleaned name or "Calendar"; enabled exactly when the
/// calendar is subscribed and visible, default and subscribed as the calendar
/// is, and read-only.
pub open spec fn source_follows(account: Seq<char>, calendar: JsonTree, source: JsonTree) -> bool {
    &&& calendar.at("myRights"@).at("mayReadItems"@).is_true()
    &&& calendar.at("isSubscribed"@).is_true() || calendar.at("isDefault"@).is_true()
    &&& calendar.at("id"@).as_str() matches Some(remote)
    &&& encode_token_spec(account, remote) matches Ok(token)
    &&& source.at("id"@) == JsonTree::Str(token)
    &&& source.at("accountId"@) == JsonTree::Str(account)
    &&& source.at("name"@) == JsonTree::Str(
        {
            let name = prefix(without_controls(calendar.at("name"@).str_or(Seq::empty())), MAX_TEXT_CHARS as int);
            if name.len() == 0 {
                "Calendar"@
            } else {
                name
            }
        },
    )
    &&& source.at("enabled"@) == JsonTree::Bool(
        calendar.at("isSubscribed"@).is_true() && calendar.at("isVisible"@).is_true(),
    )
    &&& source.at("default"@) == JsonTree::Bool(calendar.at("isDefault"@).is_true())
    &&& source.at("subscribed"@) == JsonTree::Bool(calendar.at("isSubscribed"@).is_true())
    &&& source.at("readOnly"@) == JsonTree::Bool(true)
}

proof fn lemma_source_json_reads(token: Seq<char>, account: Seq<char>, name: Seq<char>, calendar: JsonTree)
    requires
        calendar.at("id"@).as_str() matches Some(remote) && encode_token_spec(account, remote) == Ok::<Seq<char>, Seq<char>>(
            token,
        ),
        calendar.at("myRights"@).at("mayReadItems"@).is_true(),
        calendar.at("isSubscribed"@).is_true() || calendar.at("isDefault"@).is_true(),
        name == prefix(without_controls(calendar.at("name"@).str_or(Seq::empty())), MAX_TEXT_CHARS as int),
    ensures
        source_follows(account, calendar, source_json(token, account, name, calendar)),
{
    let fields = source_json(token, account, name, calendar)->Object_0;
    reveal_strlit("id");
    reveal_strlit("accountId");
    reveal_strlit("kind");
    reveal_strlit("name");
    reveal_strlit("enabled");
    reveal_strlit("default");
    reveal_strlit("subscribed");
    reveal_strlit("readOnly");
    assert(fields[0].0.len() == 2 && fields[1].0.len() == 9 && fields[2].0.len() == 4 && fields[3].0.len() == 4
        && fields[4].0.len() == 7 && fields[5].0.len() == 7 && fields[6].0.len() == 10 && fields[7].0.len() == 8);
    assert(fields[2].0[0] != "name"@[0]);
    assert(fields[4].0[0] != "default"@[0]);
    assert forall|j: int| 0 <= j < 6 implies fields[j].0 != "subscribed"@ by {
        assert(fields[j].0.len() != 10);
    }
    assert(fields[0].0 != "accountId"@);
    lemma_lookup_first(fields, "id"@, 0);
    lemma_lookup_first(fields, "accountId"@, 1);
    lemma_lookup_first(fields, "name"@, 3);
    lemma_lookup_first(fields, "enabled"@, 4);
    lemma_lookup_first(fields, "default"@, 5);
    lemma_lookup_first(fields, "subscribed"@, 6);
    lemma_lookup_first(fields, "readOnly"@, 7);
}

/// Every source of a calendar listing is the source of one of the calendars
/// (see [`source_follows`]): a hidden calendar is never reported enabled, and
/// a source is the default exactly when its calendar is.
pub proof fn sources_follow_their_calendars(account: Seq<char>, calendars: Seq<JsonTree>, answer: JsonTree)
    requires
        sources_of_spec(account, calendars) == Ok::<JsonTree, Seq<char>>(answer),
    ensures
        answer.at("sources"@).as_array() matches Some(sources) && forall|i: int|
            #![trigger sources[i]]
            0 <= i < sources.len() ==> exists|k: int|
                0 <= k < calendars.len() && source_follows(account, #[trigger] calendars[k], sources[i]),
{
    let rows = collect(calendars, |c: JsonTree| source_row(account, c))->Ok_0;
    lemma_sources_member(account, calendars, answer);
    assert forall|i: int| #![trigger rows[i]] 0 <= i < rows.len() implies exists|k: int|
        0 <= k < calendars.len() && source_follows(account, #[trigger] calendars[k], rows[i]) by {
        lemma_listed_source_follows(account, calendars, rows, i);
    }
}

/// Every readable calendar that is the default or subscribed has its source
/// (see [`source_follows`]) in the listing.
pub proof fn readable_calendars_are_listed(account: Seq<char>, calendars: Seq<JsonTree>, answer: JsonTree)
    requires
        sources_of_spec(account, calendars) == Ok::<JsonTree, Seq<char>>(answer),
    ensures
        answer.at("sources"@).as_array() matches Some(sources) && forall|k: int|
            #![trigger calendars[k]]
            0 <= k < calendars.len() && visible_readable_spec(calendars[k]) ==> exists|i: int|
                0 <= i < sources.len() && source_follows(account, calendars[k], #[trigger] sources[i]),
{
    let rows = collect(calendars, |c: JsonTree| source_row(account, c))->Ok_0;
    lemma_sources_member(account, calendars, answer);
    let sources = answer.at("sources"@).as_array()->Some_0;
    assert(sources == rows);
    assert forall|k: int|
        #![trigger calendars[k]]
        0 <= k < calendars.len() && visible_readable_spec(calendars[k]) implies exists|i: int|
            0 <= i < sources.len() && source_follows(account, calendars[k], #[trigger] sources[i]) by {
        lemma_readable_calendar_listed(account, calendars, rows, k);
        let i = choose|i: int| 0 <= i < rows.len() && source_follows(account, calendars[k], #[trigger] rows[i]);
        assert(sources[i] == rows[i]);
    }
}

proof fn lemma_sources_member(account: Seq<char>, calendars: Seq<JsonTree>, answer: JsonTree)
    requires
        sources_of_spec(account, calendars) == Ok::<JsonTree, Seq<char>>(answer),
    ensures
        answer.at("sources"@) == JsonTree::Array(collect(calendars, |c: JsonTree| source_row(account, c))->Ok_0),
{
    reveal_strlit("sources");
    lemma_lookup_first(answer->Object_0, "sources"@, 0);
}

proof fn lemma_listed_source_follows(account: Seq<char>, calendars: Seq<JsonTree>, rows: Seq<JsonTree>, i: int)
    requires
        collect(calendars, |c: JsonTree| source_row(account, c)) == Ok::<Seq<JsonTree>, Seq<char>>(rows),
        0 <= i < rows.len(),
    ensures
        exists|k: int| 0 <= k < calendars.len() && source_follows(account, #[trigger] calendars[k], rows[i]),
{
    let step = |c: JsonTree| source_row(account, c);
    assert(collect(calendars, step) == Ok::<Seq<JsonTree>, Seq<char>>(rows));
    lemma_collect_origin(calendars, step);
    assert(rows[i] == collect(calendars, step)->Ok_0[i]);
    let k = choose|k: int|
        0 <= k < calendars.len() && #[trigger] step(calendars[k]) == Ok::<Option<JsonTree>, Seq<char>>(Some(rows[i]));
    let c = calendars[k];
    let remote = c.at("id"@).as_str()->Some_0;
    let name = clean_text_spec(c.at("name"@).str_or(Seq::empty()))->Ok_0;
    let token = encode_token_spec(account, remote)->Ok_0;
    lemma_source_json_reads(token, account, name, c);
}

proof fn lemma_readable_calendar_listed(account: Seq<char>, calendars: Seq<JsonTree>, rows: Seq<JsonTree>, k: int)
    requires
        collect(calendars, |c: JsonTree| source_row(account, c)) == Ok::<Seq<JsonTree>, Seq<char>>(rows),
        0 <= k < calendars.len(),
        visible_readable_spec(calendars[k]),
    ensures
        exists|i: int| 0 <= i < rows.len() && source_follows(account, calendars[k], #[trigger] rows[i]),
{
    let step = |c: JsonTree| source_row(account, c);
    lemma_collect_keeps(calendars, |c: JsonTree| source_row(account, c));
    let c = calendars[k];
    assert(step(c) is Ok);
    let remote = c.at("id"@).as_str()->Some_0;
    let name = clean_text_spec(c.at("name"@).str_or(Seq::empty()))->Ok_0;
    let token = encode_token_spec(account, remote)->Ok_0;
    let row = source_json(token, account, name, c);
    assert(step(c) == Ok::<Option<JsonTree>, Seq<char>>(Some(row)));
    let i = choose|i: int| 0 <= i < rows.len() && rows[i] == row;
    lemma_source_json_reads(token, account, name, c);
}

pub open spec fn json_result(r: Result<Json, &'static str>) -> Result<JsonTree, Seq<char>> {
    match r {
        Ok(v) => Ok(v.tree()),
        Err(e) => Err(e@),
    }
}

/// One source row for a calendar, or `None` for a calendar that is not shown.
fn source_of(account_id: &str, calendar: &Json) -> (r: Result<Option<Json>, &'static str>)
    ensures
        match r {
            Ok(Some(row)) => source_row(account_id@, calendar.tree()) == Ok::<Option<JsonTree>, Seq<char>>(Some(row.tree())),
            Ok(None) => source_row(account_id@, calendar.tree()) == Ok::<Option<JsonTree>, Seq<char>>(None),
            Err(e) => source_row(account_id@, calendar.tree()) == Err::<Option<JsonTree>, Seq<char>>(e@),
        },
{
    validate_object(calendar)?;
    let remote = match str_of(at(Some(calendar), "id")) {
        Some(remote) => remote,
        None => return Err(INVALID_RESPONSE),
    };
    bounded_id(remote)?;
    if !visible_readable(calendar) {
        return Ok(None);
    }
    let name_text = match str_of(at(Some(calendar), "name")) {
        Some(name) => name,
        None => "",
    };
    proof {
        reveal_strlit("");
    }
    let name = clean_text(name_text)?;
    let token = encode_token(account_id, remote)?;
    let shown = if name.as_str().is_empty() {
        text("Calendar")
    } else {
        Json::Str(name)
    };
    let subscribed = is_true(at(Some(calendar), "isSubscribed"));
    let visible = is_true(at(Some(calendar), "isVisible"));
    let default = is_true(at(Some(calendar), "isDefault"));
    let fields = vec![
        ("id".to_owned(), Json::Str(token)),
        ("accountId".to_owned(), text(account_id)),
        ("kind".to_owned(), text("account")),
        ("name".to_owned(), shown),
        ("enabled".to_owned(), Json::Bool(subscribed && visible)),
        ("default".to_owned(), Json::Bool(default)),
        ("subscribed".to_owned(), Json::Bool(subscribed)),
        ("readOnly".to_owned(), Json::Bool(true)),
    ];
    let row = object(fields);
    assert(row.tree()->Object_0 =~= source_json(token@, account_id@, name@, calendar.tree())->Object_0);
    Ok(Some(row))
}

/// Projects the calendars of an account onto protocol-neutral sources.
pub fn sources_of(account_id: &str, calendars: &[Json]) -> (r: Result<Json, &'static str>)
    ensures
        json_result(r) == sources_of_spec(account_id@, trees(calendars@)),
{
    if calendars.len() > MAX_CALENDARS {
        return Err(TOO_LARGE);
    }
    let ghost items = trees(calendars@);
    let ghost step = |c: JsonTree| source_row(account_id@, c);
    let mut rows: Vec<Json> = Vec::new();
    let mut i: usize = 0;
    proof {
        assert(items.take(0) =~= Seq::<JsonTree>::empty());
        assert(trees(rows@) =~= Seq::<JsonTree>::empty());
    }
    while i < calendars.len()
        invariant
            i <= calendars@.len(),
            items == trees(calendars@),
            calendars@.len() <= MAX_CALENDARS,
            step == (|c: JsonTree| source_row(account_id@, c)),
            collect(items.take(i as int), step) == Ok::<Seq<JsonTree>, Seq<char>>(trees(rows@)),
        decreases calendars.len() - i,
    {
        proof {
            lemma_collect_step(items, i as int, step);
            assert(items[i as int] == calendars@[i as int].tree());
        }
        match source_of(account_id, &calendars[i]) {
            Ok(Some(row)) => {
                proof {
                    lemma_trees_push(rows@, row);
                }
                rows.push(row);
            },
            Ok(None) => {},
            Err(e) => {
                proof {
                    lemma_collect_err(items, i as int + 1, step);
                }
                return Err(e);
            },
        }
        i += 1;
    }
    proof {
        assert(items.take(i as int) =~= items);
    }
    let list = array(rows);
    let out = object(vec![("sources".to_owned(), list)]);
    assert(out.tree()->Object_0 =~= seq![("sources"@, JsonTree::Array(trees(rows@)))]);
    Ok(out)
}

/// The ids of the calendars that may be read, in order.
pub open spec fn allowed_id(calendar: JsonTree) -> Result<Option<Seq<char>>, Seq<char>> {
    match calendar.at("id"@).as_str() {
        None => Err(INVALID_RESPONSE@),
        Some(id) => if !valid_id(id) {
            Err(INVALID_RESPONSE@)
        } else if visible_readable_spec(calendar) {
            Ok(Some(id))
        } else {
            Ok(None)
        },
    }
}

/// Every requested calendar must be one the user may read and has chosen.
pub open spec fn authorize_sources_spec(calendars: Seq<JsonTree>, requested: Seq<Seq<char>>) -> Result<(), Seq<char>> {
    match collect(calendars, |c: JsonTree| allowed_id(c)) {
        Err(e) => Err(e),
        Ok(allowed) => if forall|i: int| 0 <= i < requested.len() ==> allowed.contains(#[trigger] requested[i]) {
            Ok(())
        } else {
            Err(SOURCE_UNKNOWN@)
        },
    }
}

pub open spec fn unit_result(r: Result<(), &'static str>) -> Result<(), Seq<char>> {
    match r {
        Ok(_) => Ok(()),
        Err(e) => Err(e@),
    }
}

/// Whether a text occurs among some texts.
pub fn contains_text(values: &Vec<&str>, value: &str) -> (r: bool)
    ensures
        r == Seq::new(values@.len(), |i: int| values@[i]@).contains(value@),
{
    let ghost texts = Seq::new(values@.len(), |i: int| values@[i]@);
    let mut i: usize = 0;
    while i < values.len()
        invariant
            i <= values@.len(),
            texts == Seq::new(values@.len(), |k: int| values@[k]@),
            forall|j: int| 0 <= j < i ==> texts[j] != value@,
        decreases values.len() - i,
    {
        if crate::text::str_eq(values[i], value) {
            assert(texts[i as int] == value@);
            return true;
        }
        i += 1;
    }
    false
}

/// Refuses a request for any calendar that is not a visible readable one.
pub fn authorize_sources(calendars: &[Json], requested: &[String]) -> (r: Result<(), &'static str>)
    ensures
        unit_result(r) == authorize_sources_spec(trees(calendars@), strings(requested@)),
{
    let ghost items = trees(calendars@);
    let ghost step = |c: JsonTree| allowed_id(c);
    let mut allowed: Vec<&str> = Vec::new();
    let mut i: usize = 0;
    proof {
        assert(items.take(0) =~= Seq::<JsonTree>::empty());
        assert(Seq::new(allowed@.len(), |k: int| allowed@[k]@) =~= Seq::<Seq<char>>::empty());
    }
    while i < calendars.len()
        invariant
            i <= calendars@.len(),
            items == trees(calendars@),
            step == (|c: JsonTree| allowed_id(c)),
            collect(items.take(i as int), step) == Ok::<Seq<Seq<char>>, Seq<char>>(
                Seq::new(allowed@.len(), |k: int| allowed@[k]@),
            ),
        decreases calendars.len() - i,
    {
        proof {
            lemma_collect_step(items, i as int, step);
            assert(items[i as int] == calendars@[i as int].tree());
        }
        let calendar = &calendars[i];
        let id = match str_of(at(Some(calendar), "id")) {
            Some(id) => id,
            None => {
                proof {
                    lemma_collect_err(items, i as int + 1, step);
                }
                return Err(INVALID_RESPONSE);
            },
        };
        match bounded_id(id) {
            Ok(_) => {},
            Err(e) => {
                proof {
                    lemma_collect_err(items, i as int + 1, step);
                }
                return Err(e);
            },
        }
        if visible_readable(calendar) {
            let ghost before = Seq::new(allowed@.len(), |k: int| allowed@[k]@);
            allowed.push(id);
            assert(Seq::new(allowed@.len(), |k: int| allowed@[k]@) =~= before.push(id@));
        }
        i += 1;
    }
    proof {
        assert(items.take(i as int) =~= items);
    }
    let ghost allowed_texts = Seq::new(allowed@.len(), |k: int| allowed@[k]@);
    let ghost wanted = strings(requested@);
    let mut j: usize = 0;
    while j < requested.len()
        invariant
            j <= requested@.len(),
            wanted == strings(requested@),
            allowed_texts == Seq::new(allowed@.len(), |k: int| allowed@[k]@),
            items == trees(calendars@),
            step == (|c: JsonTree| allowed_id(c)),
            collect(items, step) == Ok::<Seq<Seq<char>>, Seq<char>>(allowed_texts),
            forall|k: int| 0 <= k < j ==> allowed_texts.contains(#[trigger] wanted[k]),
        decreases requested.len() - j,
    {
        if !contains_text(&allowed, requested[j].as_str()) {
            assert(!allowed_texts.contains(wanted[j as int]));
            assert(!(forall|k: int| 0 <= k < wanted.len() ==> allowed_texts.contains(#[trigger] wanted[k])));
            return Err(SOURCE_UNKNOWN);
        }
        j += 1;
    }
    Ok(())
}

// ---------------------------------------------------------------------------
// Event fields
// ---------------------------------------------------------------------------

/// The first non-empty name among the location objects, in order.
pub open spec fn first_location(fields: Seq<(Seq<char>, JsonTree)>) -> Result<Seq<char>, Seq<char>>
    decreases fields.len(),
{
    if fields.len() == 0 {
        Ok(Seq::empty())
    } else if !valid_id(fields[0].0) {
        Err(INVALID_RESPONSE@)
    } else {
        match validate_object_spec(fields[0].1) {
            Err(e) => Err(e),
            Ok(_) => match clean_text_spec(fields[0].1.at("name"@).str_or(Seq::empty())) {
                Err(e) => Err(e),
                Ok(name) => if name.len() > 0 {
                    Ok(name)
                } else {
                    first_location(fields.drop_first())
                },
            },
        }
    }
}

/// The display location of an event: the JSCalendar `locations` map, or the
/// legacy `location` text where there is no map.
pub open spec fn location_spec(event: JsonTree) -> Result<Seq<char>, Seq<char>> {
    let value = event.at("locations"@);
    if value == JsonTree::Null {
        match event.at("location"@).as_str() {
            Some(legacy) => clean_text_spec(legacy),
            None => if event.at("location"@) == JsonTree::Null {
                Ok(Seq::empty())
            } else {
                Err(INVALID_RESPONSE@)
            },
        }
    } else {
        match value.as_object() {
            None => Err(INVALID_RESPONSE@),
            Some(locations) => if locations.len() > MAX_LOCATIONS {
                Err(TOO_LARGE@)
            } else {
                first_location(locations)
            },
        }
    }
}

pub fn location(event: &Json) -> (r: Result<String, &'static str>)
    ensures
        string_result(r) == location_spec(event.tree()),
{
    let value = at(Some(event), "locations");
    if is_null(value) {
        let legacy = at(Some(event), "location");
        return match str_of(legacy) {
            Some(text) => clean_text(text),
            None => if is_null(legacy) {
                Ok(String::new())
            } else {
                Err(INVALID_RESPONSE)
            },
        };
    }
    let locations = match object_of(value) {
        Some(locations) => locations,
        None => return Err(INVALID_RESPONSE),
    };
    if locations.len() > MAX_LOCATIONS {
        return Err(TOO_LARGE);
    }
    let ghost fields = field_trees(locations@);
    let mut i: usize = 0;
    proof {
        assert(fields.skip(0) =~= fields);
        assert(opt_tree(value).as_object() == Some(fields));
    }
    while i < locations.len()
        invariant
            i <= locations@.len(),
            fields == field_trees(locations@),
            location_spec(event.tree()) == first_location(fields.skip(i as int)),
        decreases locations.len() - i,
    {
        proof {
            assert(fields.skip(i as int).drop_first() =~= fields.skip(i as int + 1));
            assert(fields.skip(i as int)[0] == fields[i as int]);
            assert(fields[i as int] == (locations@[i as int].0@, locations@[i as int].1.tree()));
        }
        let (id, place) = (&locations[i].0, &locations[i].1);
        bounded_id(id.as_str())?;
        validate_object(place)?;
        let name_text = match str_of(at(Some(place), "name")) {
            Some(name) => name,
            None => "",
        };
        proof {
            reveal_strlit("");
        }
        let name = clean_text(name_text)?;
        if !name.as_str().is_empty() {
            return Ok(name);
        }
        i += 1;
    }
    proof {
        assert(fields.skip(i as int) =~= Seq::<(Seq<char>, JsonTree)>::empty());
    }
    Ok(String::new())
}

/// Whether a participant owns the event. A role map is read at its `owner`
/// entry, as a map index that panics where the entry is absent: `None` marks
/// that case, for which no answer is defined.
pub open spec fn participant_owner(participant: JsonTree) -> Option<Result<bool, Seq<char>>> {
    match participant.at("roles"@).as_object() {
        None => Some(Ok(false)),
        Some(roles) => if roles.len() > MAX_OBJECT_FIELDS {
            Some(Err(TOO_LARGE@))
        } else {
            match lookup(roles, "owner"@) {
                None => None,
                Some(owner) => Some(Ok(owner.is_true())),
            }
        },
    }
}

/// The organizer is the first owner with a display text; everyone else with
/// one is an attendee, in order. `None` where a role map lacks `owner`.
pub open spec fn people_from(
    participants: Seq<(Seq<char>, JsonTree)>,
    organizer: Seq<char>,
    attendees: Seq<Seq<char>>,
) -> Option<Result<(Seq<char>, Seq<Seq<char>>), Seq<char>>>
    decreases participants.len(),
{
    if participants.len() == 0 {
        Some(Ok((organizer, attendees)))
    } else {
        let id = participants[0].0;
        let participant = participants[0].1;
        let rest = participants.drop_first();
        if !valid_id(id) {
            Some(Err(INVALID_RESPONSE@))
        } else {
            match validate_object_spec(participant) {
                Err(e) => Some(Err(e)),
                Ok(_) => match clean_text_spec(participant.at("email"@).str_or(Seq::empty())) {
                    Err(e) => Some(Err(e)),
                    Ok(email) => match clean_text_spec(participant.at("name"@).str_or(Seq::empty())) {
                        Err(e) => Some(Err(e)),
                        Ok(name) => {
                            let display = if email.len() == 0 {
                                name
                            } else {
                                email
                            };
                            if display.len() == 0 {
                                people_from(rest, organizer, attendees)
                            } else {
                                match participant_owner(participant) {
                                    None => None,
                                    Some(Err(e)) => Some(Err(e)),
                                    Some(Ok(owner)) => if owner && organizer.len() == 0 {
                                        people_from(rest, display, attendees)
                                    } else {
                                        people_from(rest, organizer, attendees.push(display))
                                    },
                                }
                            }
                        },
                    },
                },
            }
        }
    }
}

pub open spec fn people_spec(value: JsonTree) -> Option<Result<(Seq<char>, Seq<Seq<char>>), Seq<char>>> {
    match value.as_object() {
        None => if value == JsonTree::Null {
            Some(Ok((Seq::empty(), Seq::empty())))
        } else {
            Some(Err(INVALID_RESPONSE@))
        },
        Some(participants) => if participants.len() > MAX_PARTICIPANTS {
            Some(Err(TOO_LARGE@))
        } else {
            people_from(participants, Seq::empty(), Seq::empty())
        },
    }
}

pub open spec fn people_result(r: Result<(String, Vec<String>), &'static str>) -> Result<(Seq<char>, Seq<Seq<char>>), Seq<char>> {
    match r {
        Ok((organizer, attendees)) => Ok((organizer@, strings(attendees@))),
        Err(e) => Err(e@),
    }
}

pub open spec fn opt_people_result(r: Option<Result<(String, Vec<String>), &'static str>>) -> Option<
    Result<(Seq<char>, Seq<Seq<char>>), Seq<char>>,
> {
    match r {
        Some(x) => Some(people_result(x)),
        None => None,
    }
}

/// Splits the participants into the organizer and the attendees; `None`
/// where a role map that is read lacks `owner`.
fn people_or_none(value: Option<&Json>) -> (r: Option<Result<(String, Vec<String>), &'static str>>)
    ensures
        opt_people_result(r) == people_spec(opt_tree(value)),
{
    let participants = match object_of(value) {
        Some(participants) => participants,
        None => {
            return if is_null(value) {
                let none: Vec<String> = Vec::new();
                assert(strings(none@) =~= Seq::<Seq<char>>::empty());
                Some(Ok((String::new(), none)))
            } else {
                Some(Err(INVALID_RESPONSE))
            };
        },
    };
    if participants.len() > MAX_PARTICIPANTS {
        return Some(Err(TOO_LARGE));
    }
    let ghost fields = field_trees(participants@);
    let mut organizer = String::new();
    let mut attendees: Vec<String> = Vec::new();
    let mut i: usize = 0;
    proof {
        assert(fields.skip(0) =~= fields);
        assert(strings(attendees@) =~= Seq::<Seq<char>>::empty());
    }
    while i < participants.len()
        invariant
            i <= participants@.len(),
            fields == field_trees(participants@),
            people_spec(opt_tree(value)) == people_from(
                fields.skip(i as int),
                organizer@,
                strings(attendees@),
            ),
        decreases participants.len() - i,
    {
        proof {
            assert(fields.skip(i as int).drop_first() =~= fields.skip(i as int + 1));
            assert(fields.skip(i as int)[0] == fields[i as int]);
            assert(fields[i as int] == (participants@[i as int].0@, participants@[i as int].1.tree()));
        }
        let (id, participant) = (&participants[i].0, &participants[i].1);
        if let Err(e) = bounded_id(id.as_str()) {
            return Some(Err(e));
        }
        if let Err(e) = validate_object(participant) {
            return Some(Err(e));
        }
        proof {
            reveal_strlit("");
        }
        let email = match clean_text(match str_of(at(Some(participant), "email")) {
            Some(t) => t,
            None => "",
        }) {
            Ok(text) => text,
            Err(e) => return Some(Err(e)),
        };
        let name = match clean_text(match str_of(at(Some(participant), "name")) {
            Some(t) => t,
            None => "",
        }) {
            Ok(text) => text,
            Err(e) => return Some(Err(e)),
        };
        let display = if email.as_str().is_empty() {
            name
        } else {
            email
        };
        if display.as_str().is_empty() {
            i += 1;
            continue;
        }
        let roles_value = at(Some(participant), "roles");
        let owner = match object_of(roles_value) {
            Some(roles) => {
                if roles.len() > MAX_OBJECT_FIELDS {
                    return Some(Err(TOO_LARGE));
                }
                match roles_value {
                    Some(roles_json) => match roles_json.member("owner") {
                        Some(flag) => flag.is_true(),
                        None => {
                            proof {
                                assert(participant_owner(participant.tree()) is None);
                            }
                            return None;
                        },
                    },
                    None => false,
                }
            },
            None => false,
        };
        if owner && organizer.as_str().is_empty() {
            organizer = display;
        } else {
            let ghost before = strings(attendees@);
            attendees.push(display);
            assert(strings(attendees@) =~= before.push(display@));
        }
        i += 1;
    }
    proof {
        assert(fields.skip(i as int) =~= Seq::<(Seq<char>, JsonTree)>::empty());
    }
    Some(Ok((organizer, attendees)))
}


/// Splits the participants into the organizer and the attendees.
pub fn people(value: Option<&Json>) -> (r: Result<(String, Vec<String>), &'static str>)
    requires
        people_spec(opt_tree(value)) is Some,
    ensures
        Some(people_result(r)) == people_spec(opt_tree(value)),
{
    match people_or_none(value) {
        Some(r) => r,
        None => {
            assert(false);
            Err(INVALID_RESPONSE)
        },
    }
}

// ---------------------------------------------------------------------------
// Times
// ---------------------------------------------------------------------------

pub open spec fn is_ascii_digit(c: char) -> bool {
    '0' <= c && c <= '9'
}

/// The value of a run of decimal digits.
pub open spec fn decimal_value(digits: Seq<char>) -> int
    decreases digits.len(),
{
    if digits.len() == 0 {
        0
    } else {
        decimal_value(digits.drop_last()) * 10 + (digits.last() as int - 48)
    }
}

/// An all-day duration `P<n>D` with one to six digits and 1 <= n <= 366000.
pub open spec fn calendar_days_spec(duration: Seq<char>) -> Result<i64, Seq<char>> {
    if duration.len() < 2 || duration[0] != 'P' || duration.last() != 'D' {
        Err(INVALID_RESPONSE@)
    } else {
        let digits = duration.subrange(1, duration.len() - 1);
        if digits.len() == 0 || digits.len() > 6 || !(forall|i: int|
            0 <= i < digits.len() ==> is_ascii_digit(#[trigger] digits[i])) {
            Err(INVALID_RESPONSE@)
        } else if 1 <= decimal_value(digits) <= 366_000 {
            Ok(decimal_value(digits) as i64)
        } else {
            Err(INVALID_RESPONSE@)
        }
    }
}

pub open spec fn i64_result(r: Result<i64, &'static str>) -> Result<i64, Seq<char>> {
    match r {
        Ok(n) => Ok(n),
        Err(e) => Err(e@),
    }
}

/// Reads the whole-day count of an all-day duration.
pub fn calendar_days(duration: &str) -> (r: Result<i64, &'static str>)
    ensures
        i64_result(r) == calendar_days_spec(duration@),
{
    let chars = chars_of(duration);
    let n = chars.len();
    if n < 2 || chars[0] != 'P' || chars[n - 1] != 'D' {
        return Err(INVALID_RESPONSE);
    }
    let ghost digits = duration@.subrange(1, n - 1);
    if n - 2 == 0 || n - 2 > 6 {
        return Err(INVALID_RESPONSE);
    }
    let mut value: i64 = 0;
    let mut i: usize = 1;
    while i < n - 1
        invariant
            chars@ == duration@,
            n == chars@.len(),
            3 <= n <= 8,
            1 <= i <= n - 1,
            digits == duration@.subrange(1, n - 1),
            forall|k: int| 0 <= k < i - 1 ==> is_ascii_digit(#[trigger] digits[k]),
            value as int == decimal_value(digits.take(i - 1)),
            0 <= value,
            i - 1 <= 5 ==> value < 100_000,
            i - 1 <= 4 ==> value < 10_000,
            i - 1 <= 3 ==> value < 1_000,
            i - 1 <= 2 ==> value < 100,
            i - 1 <= 1 ==> value < 10,
            i - 1 == 0 ==> value == 0,
            value < 1_000_000,
        decreases n - 1 - i,
    {
        let c = chars[i];
        if !('0' <= c && c <= '9') {
            assert(!is_ascii_digit(digits[i - 1]));
            return Err(INVALID_RESPONSE);
        }
        proof {
            assert(digits.take(i as int).drop_last() =~= digits.take(i - 1));
            assert(digits[i - 1] == c);
        }
        value = value * 10 + (c as u32 - 48) as i64;
        i += 1;
    }
    proof {
        assert(digits.take(n - 2) =~= digits);
    }
    if 1 <= value && value <= 366_000 {
        Ok(value)
    } else {
        Err(INVALID_RESPONSE)
    }
}

/// The instant of an RFC 3339 text of at most 64 bytes without control characters.
pub open spec fn utc_ms_spec(value: JsonTree) -> Result<i64, Seq<char>> {
    match value.as_str() {
        None => Err(INVALID_RESPONSE@),
        Some(text) => if byte_len(text) > 64 || has_control(text) {
            Err(INVALID_RESPONSE@)
        } else {
            match rfc3339_millis(text) {
                Some(ms) => Ok(ms),
                None => Err(INVALID_RESPONSE@),
            }
        },
    }
}

pub fn utc_ms(value: Option<&Json>) -> (r: Result<i64, &'static str>)
    ensures
        i64_result(r) == utc_ms_spec(opt_tree(value)),
{
    let text = match str_of(value) {
        Some(text) => text,
        None => return Err(INVALID_RESPONSE),
    };
    if !byte_len_within(text, 64) || str_has_control(text) {
        return Err(INVALID_RESPONSE);
    }
    match rfc3339_millis_of(text) {
        Some(ms) => Ok(ms),
        None => Err(INVALID_RESPONSE),
    }
}

/// The UTC wall-clock text of an instant, as the query filter takes it.
pub fn utc_local(ms: i64) -> (r: Result<String, &'static str>)
    ensures
        string_result(r) == match utc_text(ms) {
            Some(text) => Ok::<Seq<char>, Seq<char>>(text),
            None => Err(INVALID_PARAMS@),
        },
{
    match utc_text_of(ms) {
        Some(text) => Ok(text),
        None => Err(INVALID_PARAMS),
    }
}

/// The local civil midnight of a day, as milliseconds since the epoch. It
/// depends on the machine's time zone: it lies within a day of the UTC
/// midnight of that day, a whole number of seconds from it.
pub fn local_midnight(day: i32) -> (r: Result<i64, &'static str>)
    ensures
        r matches Err(e) ==> e@ == INVALID_RESPONSE@,
        r matches Ok(ms) ==> utc_midnight_ms(day) - 86_400_000 < ms < utc_midnight_ms(day) + 86_400_000
            && (ms - utc_midnight_ms(day)) % 1000 == 0,
{
    match local_midnight_millis(day) {
        Some(ms) => Ok(ms),
        None => Err(INVALID_RESPONSE),
    }
}

/// The first and the day after the last day of an all-day event.
pub open spec fn all_day_days_spec(event: JsonTree) -> Result<(i32, i32), Seq<char>> {
    match event.at("start"@).as_str() {
        None => Err(INVALID_RESPONSE@),
        Some(text) => if byte_len(text) > 64 || has_control(text) {
            Err(INVALID_RESPONSE@)
        } else {
            match naive_date_time(text) {
                None => Err(INVALID_RESPONSE@),
                Some((day, seconds, nanos)) => if seconds != 0 || nanos != 0 {
                    Err(INVALID_RESPONSE@)
                } else {
                    match event.at("duration"@).as_str() {
                        None => Err(INVALID_RESPONSE@),
                        Some(duration) => match calendar_days_spec(duration) {
                            Err(e) => Err(e),
                            Ok(days) => match date_plus_days(day, days) {
                                None => Err(INVALID_RESPONSE@),
                                Some(end_day) => Ok((day, end_day)),
                            },
                        },
                    }
                },
            }
        },
    }
}

/// The local-midnight boundaries of an all-day event, given the local
/// midnights that the machine reports for its first day and for the day after.
pub open spec fn all_day_times_spec(event: JsonTree, start_midnight: Option<i64>, end_midnight: Option<i64>) -> Result<(i64, i64), Seq<char>> {
    match all_day_days_spec(event) {
        Err(e) => Err(e),
        Ok(_) => match (start_midnight, end_midnight) {
            (Some(start), Some(end)) => if end <= start {
                Err(INVALID_RESPONSE@)
            } else {
                Ok((start, end))
            },
            _ => Err(INVALID_RESPONSE@),
        },
    }
}

/// A local midnight of this day: within a day of its UTC midnight, a whole
/// number of seconds from it, as every time zone offset is.
pub open spec fn near_midnight(ms: i64, day: i32) -> bool {
    utc_midnight_ms(day) - 86_400_000 < ms < utc_midnight_ms(day) + 86_400_000 && (ms - utc_midnight_ms(day))
        % 1000 == 0
}

/// The reported midnights of an all-day event are local midnights of its
/// first day and of the day after its last.
pub open spec fn midnights_fit(event: JsonTree, start_midnight: Option<i64>, end_midnight: Option<i64>) -> bool {
    all_day_days_spec(event) matches Ok((first, after)) ==> (start_midnight matches Some(s) ==> near_midnight(s, first))
        && (end_midnight matches Some(e) ==> near_midnight(e, after))
}

/// Every event's reported midnights fit it.
pub open spec fn fits_all(events: Seq<JsonTree>, midnights: Seq<(Option<i64>, Option<i64>)>) -> bool {
    forall|k: int| 0 <= k < events.len() ==> #[trigger] midnights_fit(events[k], midnights[k].0, midnights[k].1)
}

pub open spec fn pair_result(r: Result<(i64, i64), &'static str>) -> Result<(i64, i64), Seq<char>> {
    match r {
        Ok(p) => Ok(p),
        Err(e) => Err(e@),
    }
}

/// Civil-midnight boundaries for an all-day event: exactly the result for
/// the local midnights the machine reported for its first day and for the
/// day after its last.
pub fn all_day_times(event: &Json) -> (r: Result<(i64, i64), &'static str>)
    ensures
        exists|start_midnight: Option<i64>, end_midnight: Option<i64>|
            midnights_fit(event.tree(), start_midnight, end_midnight) && pair_result(r) == all_day_times_spec(
                event.tree(),
                start_midnight,
                end_midnight,
            ),
        r matches Ok((s, e)) ==> all_day_days_spec(event.tree()) matches Ok((first, after)) && near_midnight(s, first)
            && near_midnight(e, after) && s < e,
{
    let start_text = match str_of(at(Some(event), "start")) {
        Some(text) => text,
        None => return Err(INVALID_RESPONSE),
    };
    if !byte_len_within(start_text, 64) || str_has_control(start_text) {
        return Err(INVALID_RESPONSE);
    }
    let (day, seconds, nanos) = match naive_date_time_of(start_text) {
        Some(parts) => parts,
        None => return Err(INVALID_RESPONSE),
    };
    if seconds != 0 || nanos != 0 {
        return Err(INVALID_RESPONSE);
    }
    let duration = match str_of(at(Some(event), "duration")) {
        Some(text) => text,
        None => return Err(INVALID_RESPONSE),
    };
    let days = calendar_days(duration)?;
    let end_day = match date_plus_days_of(day, days) {
        Some(end_day) => end_day,
        None => return Err(INVALID_RESPONSE),
    };
    let start = match local_midnight_millis(day) {
        Some(ms) => ms,
        None => {
            assert(pair_result(Err(INVALID_RESPONSE)) == all_day_times_spec(event.tree(), None, None));
            assert(midnights_fit(event.tree(), None, None));
            return Err(INVALID_RESPONSE);
        },
    };
    let end = match local_midnight_millis(end_day) {
        Some(ms) => ms,
        None => {
            assert(pair_result(Err(INVALID_RESPONSE)) == all_day_times_spec(event.tree(), Some(start), None));
            assert(midnights_fit(event.tree(), Some(start), None));
            return Err(INVALID_RESPONSE);
        },
    };
    assert(all_day_days_spec(event.tree()) == Ok::<(i32, i32), Seq<char>>((day, end_day)));
    if end <= start {
        assert(pair_result(Err(INVALID_RESPONSE)) == all_day_times_spec(event.tree(), Some(start), Some(end)));
        assert(midnights_fit(event.tree(), Some(start), Some(end)));
        return Err(INVALID_RESPONSE);
    }
    assert(pair_result(Ok((start, end))) == all_day_times_spec(event.tree(), Some(start), Some(end)));
    assert(midnights_fit(event.tree(), Some(start), Some(end)));
    Ok((start, end))
}

// ---------------------------------------------------------------------------
// Event normalization
// ---------------------------------------------------------------------------

/// Every calendar membership names a valid calendar id with a boolean flag.
pub open spec fn memberships_ok(ids: Seq<(Seq<char>, JsonTree)>) -> Result<(), Seq<char>>
    decreases ids.len(),
{
    if ids.len() == 0 {
        Ok(())
    } else if !valid_id(ids[0].0) {
        Err(INVALID_RESPONSE@)
    } else if ids[0].1.as_bool() is None {
        Err(INVALID_RESPONSE@)
    } else {
        memberships_ok(ids.drop_first())
    }
}

/// The first requested calendar, from position `k` on, of which the event is a member.
pub open spec fn first_selected(remotes: Seq<Seq<char>>, ids: Seq<(Seq<char>, JsonTree)>, k: int) -> Option<int>
    decreases remotes.len() - k,
{
    if k < 0 || k >= remotes.len() {
        None
    } else if lookup(ids, remotes[k]) == Some(JsonTree::Bool(true)) {
        Some(k)
    } else {
        first_selected(remotes, ids, k + 1)
    }
}

pub proof fn lemma_first_selected_bound(remotes: Seq<Seq<char>>, ids: Seq<(Seq<char>, JsonTree)>, k: int)
    ensures
        first_selected(remotes, ids, k) matches Some(j) ==> k <= j < remotes.len(),
    decreases remotes.len() - k,
{
    if 0 <= k < remotes.len() {
        lemma_first_selected_bound(remotes, ids, k + 1);
    }
}

/// The start or end of an event row.
pub open spec fn time_json(ms: i64, all_day: bool, tzid: Seq<char>) -> JsonTree {
    JsonTree::Object(
        seq![
            ("ms"@, int_tree(ms)),
            ("allDay"@, JsonTree::Bool(all_day)),
            ("tzid"@, JsonTree::Str(tzid)),
            ("resolved"@, JsonTree::Bool(true)),
        ],
    )
}

pub open spec fn texts_json(values: Seq<Seq<char>>) -> JsonTree {
    JsonTree::Array(Seq::new(values.len(), |i: int| JsonTree::Str(values[i])))
}

/// The protocol-neutral event row.
pub open spec fn event_json(
    id: Seq<char>,
    start: i64,
    summary: Seq<char>,
    source_id: Seq<char>,
    uid: Seq<char>,
    description: Seq<char>,
    location: Seq<char>,
    status: Seq<char>,
    organizer: Seq<char>,
    attendees: Seq<Seq<char>>,
    end: i64,
    all_day: bool,
    tzid: Seq<char>,
) -> JsonTree {
    JsonTree::Object(
        seq![
            ("id"@, JsonTree::Str(id)),
            ("start"@, time_json(start, all_day, tzid)),
            ("summary"@, JsonTree::Str(summary)),
            ("sourceId"@, JsonTree::Str(source_id)),
            ("uid"@, JsonTree::Str(uid)),
            ("description"@, JsonTree::Str(description)),
            ("location"@, JsonTree::Str(location)),
            ("meetLink"@, JsonTree::Str(Seq::empty())),
            ("status"@, JsonTree::Str(status)),
            ("organizer"@, JsonTree::Str(organizer)),
            ("attendees"@, texts_json(attendees)),
            ("end"@, time_json(end, all_day, tzid)),
        ],
    )
}

/// The order of event rows: by start instant, then summary, then id.
pub open spec fn row_key(row: JsonTree) -> Seq<i64> {
    seq![
        match row.at("start"@).at("ms"@).as_i64() {
            Some(ms) => ms,
            None => 0,
        },
    ] + text_key(row.at("summary"@).str_or(Seq::empty())) + text_key(
        row.at("id"@).str_or(Seq::empty()),
    )
}

/// The first checks of an event: a bounded object with a valid id, not
/// cancelled, with valid calendar memberships; `Ok(None)` for an event that is
/// cancelled or in none of the requested calendars, otherwise its remote id,
/// its upper-case status and the position of its first requested calendar.
pub open spec fn event_header_spec(remotes: Seq<Seq<char>>, event: JsonTree) -> Result<Option<(Seq<char>, Seq<char>, int)>, Seq<char>> {
    match validate_object_spec(event) {
        Err(e) => Err(e),
        Ok(_) => match event.at("id"@).as_str() {
            None => Err(INVALID_RESPONSE@),
            Some(remote_id) => if !valid_id(remote_id) {
                Err(INVALID_RESPONSE@)
            } else {
                match clean_text_spec(event.at("status"@).str_or(Seq::empty())) {
                    Err(e) => Err(e),
                    Ok(raw_status) => {
                        let status = uppercase(raw_status);
                        if status == "CANCELLED"@ {
                            Ok(None)
                        } else {
                            match event.at("calendarIds"@).as_object() {
                                None => Err(INVALID_RESPONSE@),
                                Some(ids) => if ids.len() > MAX_CALENDARS {
                                    Err(TOO_LARGE@)
                                } else {
                                    match memberships_ok(ids) {
                                        Err(e) => Err(e),
                                        Ok(_) => match first_selected(remotes, ids, 0) {
                                            None => Ok(None),
                                            Some(k) => Ok(Some((remote_id, status, k))),
                                        },
                                    }
                                },
                            }
                        }
                    },
                }
            },
        },
    }
}

/// The instants of an event: exact UTC times, or local civil midnights for
/// an all-day event; with its time zone and whether it is all-day.
pub open spec fn event_times_spec(event: JsonTree, start_midnight: Option<i64>, end_midnight: Option<i64>) -> Result<(i64, i64, Seq<char>, bool), Seq<char>> {
    match utc_ms_spec(event.at("utcStart"@)) {
        Err(e) => Err(e),
        Ok(utc_start) => match utc_ms_spec(event.at("utcEnd"@)) {
            Err(e) => Err(e),
            Ok(utc_end) => if utc_end <= utc_start {
                Err(INVALID_RESPONSE@)
            } else if event.at("showWithoutTime"@).is_true() {
                match all_day_times_spec(event, start_midnight, end_midnight) {
                    Err(e) => Err(e),
                    Ok((s, e)) => Ok((s, e, Seq::empty(), true)),
                }
            } else {
                match clean_text_spec(event.at("timeZone"@).str_or(Seq::empty())) {
                    Err(e) => Err(e),
                    Ok(tz) => Ok((utc_start, utc_end, tz, false)),
                }
            },
        },
    }
}

/// The row of one event, given the local midnights the machine reports for
/// an all-day event. `None` where a role map it reads lacks `owner`.
pub open spec fn event_row_spec(
    tokens: Seq<Seq<char>>,
    remotes: Seq<Seq<char>>,
    event: JsonTree,
    start_midnight: Option<i64>,
    end_midnight: Option<i64>,
    range_start: i64,
    range_end: i64,
) -> Option<Result<Option<JsonTree>, Seq<char>>> {
    match event_header_spec(remotes, event) {
        Err(e) => Some(Err(e)),
        Ok(None) => Some(Ok(None)),
        Ok(Some((remote_id, status, k))) => match event_times_spec(event, start_midnight, end_midnight) {
            Err(e) => Some(Err(e)),
            Ok((start, end, tzid, all_day)) => if start >= range_end || end <= range_start {
                Some(Ok(None))
            } else {
                match people_spec(event.at("participants"@)) {
                    None => None,
                    Some(Err(e)) => Some(Err(e)),
                    Some(Ok((organizer, attendees))) => Some(
                        event_row_fields(
                            tokens[k],
                            event,
                            remote_id,
                            status,
                            start,
                            end,
                            all_day,
                            tzid,
                            organizer,
                            attendees,
                        ),
                    ),
                }
            },
        },
    }
}

/// The text fields of an event row that is shown.
pub open spec fn event_row_fields(
    source_id: Seq<char>,
    event: JsonTree,
    remote_id: Seq<char>,
    status: Seq<char>,
    start: i64,
    end: i64,
    all_day: bool,
    tzid: Seq<char>,
    organizer: Seq<char>,
    attendees: Seq<Seq<char>>,
) -> Result<Option<JsonTree>, Seq<char>> {
    match clean_text_spec(event.at("title"@).str_or(Seq::empty())) {
        Err(e) => Err(e),
        Ok(title) => {
            let summary = if title.len() == 0 {
                "Untitled event"@
            } else {
                title
            };
            match event_token_spec(source_id, remote_id) {
                Err(e) => Err(e),
                Ok(id) => match clean_text_spec(event.at("uid"@).str_or(remote_id)) {
                    Err(e) => Err(e),
                    Ok(uid) => match clean_text_spec(event.at("description"@).str_or(Seq::empty())) {
                        Err(e) => Err(e),
                        Ok(description) => match location_spec(event) {
                            Err(e) => Err(e),
                            Ok(location) => Ok(
                                Some(
                                    event_json(
                                        id,
                                        start,
                                        summary,
                                        source_id,
                                        uid,
                                        description,
                                        location,
                                        status,
                                        organizer,
                                        attendees,
                                        end,
                                        all_day,
                                        tzid,
                                    ),
                                ),
                            ),
                        },
                    },
                },
            }
        },
    }
}

/// The rows of the events in order, each with the local midnights at its
/// index. `None` where a role map they read lacks `owner`.
pub open spec fn event_rows(
    tokens: Seq<Seq<char>>,
    remotes: Seq<Seq<char>>,
    events: Seq<JsonTree>,
    midnights: Seq<(Option<i64>, Option<i64>)>,
    range_start: i64,
    range_end: i64,
) -> Option<Result<Seq<JsonTree>, Seq<char>>>
    decreases events.len(),
{
    if events.len() == 0 {
        Some(Ok(Seq::empty()))
    } else {
        let n = events.len() - 1;
        match event_rows(tokens, remotes, events.drop_last(), midnights.take(n), range_start, range_end) {
            None => None,
            Some(Err(e)) => Some(Err(e)),
            Some(Ok(rows)) => match event_row_spec(
                tokens,
                remotes,
                events[n],
                midnights[n].0,
                midnights[n].1,
                range_start,
                range_end,
            ) {
                None => None,
                Some(Err(e)) => Some(Err(e)),
                Some(Ok(None)) => Some(Ok(rows)),
                Some(Ok(Some(row))) => Some(Ok(rows.push(row))),
            },
        }
    }
}

/// Whether a row has this ordering key.
pub open spec fn row_key_is(key: Seq<i64>) -> spec_fn(JsonTree) -> bool {
    |row: JsonTree| row_key(row) == key
}

/// A row that may be shown for the range: it starts before the range ends,
/// ends after the range starts and after it starts, and is not cancelled.
pub open spec fn row_within(row: JsonTree, range_start: i64, range_end: i64) -> bool {
    &&& row.at("start"@).at("ms"@).as_i64() matches Some(start)
    &&& row.at("end"@).at("ms"@).as_i64() matches Some(end)
    &&& start < range_end && range_start < end && start < end
    &&& row.at("status"@).as_str() matches Some(status)
    &&& status != "CANCELLED"@
}

/// A row whose source is one of the requested calendars' tokens.
pub open spec fn row_from_requested(row: JsonTree, tokens: Seq<Seq<char>>, remotes: Seq<Seq<char>>) -> bool {
    exists|k: int| 0 <= k < remotes.len() && row.at("sourceId"@) == JsonTree::Str(#[trigger] tokens[k])
}

proof fn lemma_time_json_ms(ms: i64, all_day: bool, tzid: Seq<char>)
    ensures
        time_json(ms, all_day, tzid).at("ms"@).as_i64() == Some(ms),
{
    let fields = time_json(ms, all_day, tzid)->Object_0;
    lemma_lookup_first(fields, "ms"@, 0);
}

proof fn lemma_event_json_within(
    id: Seq<char>,
    start: i64,
    summary: Seq<char>,
    source_id: Seq<char>,
    uid: Seq<char>,
    description: Seq<char>,
    location: Seq<char>,
    status: Seq<char>,
    organizer: Seq<char>,
    attendees: Seq<Seq<char>>,
    end: i64,
    all_day: bool,
    tzid: Seq<char>,
    range_start: i64,
    range_end: i64,
)
    requires
        start < range_end,
        range_start < end,
        start < end,
        status != "CANCELLED"@,
    ensures
        row_within(
            event_json(id, start, summary, source_id, uid, description, location, status, organizer, attendees, end, all_day, tzid),
            range_start,
            range_end,
        ),
        event_json(id, start, summary, source_id, uid, description, location, status, organizer, attendees, end, all_day, tzid).at(
            "sourceId"@,
        ) == JsonTree::Str(source_id),
{
    let row = event_json(id, start, summary, source_id, uid, description, location, status, organizer, attendees, end, all_day, tzid);
    let fields = row->Object_0;
    reveal_strlit("id");
    reveal_strlit("start");
    reveal_strlit("summary");
    reveal_strlit("sourceId");
    reveal_strlit("uid");
    reveal_strlit("description");
    reveal_strlit("location");
    reveal_strlit("meetLink");
    reveal_strlit("status");
    reveal_strlit("organizer");
    reveal_strlit("attendees");
    reveal_strlit("end");
    assert(fields[1].0 == "start"@);
    assert(fields[0].0 != "start"@);
    lemma_lookup_first(fields, "start"@, 1);
    reveal_strlit("sourceId");
    assert forall|j: int| 0 <= j < 3 implies fields[j].0 != "sourceId"@ by {
        assert(fields[j].0.len() != 8);
    }
    lemma_lookup_first(fields, "sourceId"@, 3);
    assert forall|j: int| 0 <= j < 8 implies fields[j].0 != "status"@ by {
        assert(fields[j].0.len() != 6 || fields[j].0[0] != 's' || fields[j].0[1] != 't' || fields[j].0[2] != 'a'
            || fields[j].0[3] != 't');
    }
    lemma_lookup_first(fields, "status"@, 8);
    assert forall|j: int| 0 <= j < 11 implies fields[j].0 != "end"@ by {
        assert(fields[j].0.len() != 3 || fields[j].0[0] != 'e');
    }
    lemma_lookup_first(fields, "end"@, 11);
    lemma_time_json_ms(start, all_day, tzid);
    lemma_time_json_ms(end, all_day, tzid);
}

proof fn lemma_header_source(remotes: Seq<Seq<char>>, event: JsonTree)
    ensures
        event_header_spec(remotes, event) matches Ok(Some((_, status, k))) ==> 0 <= k < remotes.len() && status
            != "CANCELLED"@,
{
    match event.at("calendarIds"@).as_object() {
        Some(ids) => lemma_first_selected_bound(remotes, ids, 0),
        None => {},
    }
}

proof fn lemma_event_json_location(
    id: Seq<char>,
    start: i64,
    summary: Seq<char>,
    source_id: Seq<char>,
    uid: Seq<char>,
    description: Seq<char>,
    location: Seq<char>,
    status: Seq<char>,
    organizer: Seq<char>,
    attendees: Seq<Seq<char>>,
    end: i64,
    all_day: bool,
    tzid: Seq<char>,
)
    ensures
        event_json(id, start, summary, source_id, uid, description, location, status, organizer, attendees, end, all_day, tzid).at(
            "location"@,
        ) == JsonTree::Str(location),
{
    let fields = event_json(id, start, summary, source_id, uid, description, location, status, organizer, attendees, end, all_day, tzid)->Object_0;
    reveal_strlit("id");
    reveal_strlit("start");
    reveal_strlit("summary");
    reveal_strlit("sourceId");
    reveal_strlit("uid");
    reveal_strlit("description");
    reveal_strlit("location");
    assert(fields[0].0.len() == 2 && fields[1].0.len() == 5 && fields[2].0.len() == 7 && fields[3].0.len() == 8
        && fields[4].0.len() == 3 && fields[5].0.len() == 11);
    assert(fields[3].0[0] != "location"@[0]);
    assert forall|j: int| 0 <= j < 6 implies fields[j].0 != "location"@ by {
        assert(fields[j].0.len() != 8 || fields[j].0[0] != 'l');
    }
    lemma_lookup_first(fields, "location"@, 6);
}

/// The shown name of a place: its `name` text with control characters
/// removed, cut to `MAX_TEXT_CHARS` characters.
pub open spec fn place_name(place: JsonTree) -> Seq<char> {
    prefix(without_controls(place.at("name"@).str_or(Seq::empty())), MAX_TEXT_CHARS as int)
}

/// The places of a `locations` map located by `location`: by the first place
/// that has a shown name, or by nothing where none has one.
pub open spec fn first_named_place(places: Seq<(Seq<char>, JsonTree)>, location: Seq<char>) -> bool {
    ||| location.len() == 0 && forall|k: int| 0 <= k < places.len() ==> (#[trigger] place_name(places[k].1)).len() == 0
    ||| exists|k: int|
        0 <= k < places.len() && location.len() > 0 && location == #[trigger] place_name(places[k].1) && forall|j: int|
            0 <= j < k ==> (#[trigger] place_name(places[j].1)).len() == 0
}

proof fn lemma_first_location(fields: Seq<(Seq<char>, JsonTree)>)
    requires
        first_location(fields) is Ok,
    ensures
        first_named_place(fields, first_location(fields)->Ok_0),
    decreases fields.len(),
{
    if fields.len() > 0 {
        let name = place_name(fields[0].1);
        if name.len() == 0 {
            let rest = fields.drop_first();
            lemma_first_location(rest);
            let loc = first_location(rest)->Ok_0;
            assert(first_location(fields)->Ok_0 == loc);
            if loc.len() == 0 && forall|k: int| 0 <= k < rest.len() ==> (#[trigger] place_name(rest[k].1)).len() == 0 {
                assert forall|k: int| 0 <= k < fields.len() implies (#[trigger] place_name(fields[k].1)).len() == 0 by {
                    if k > 0 {
                        assert(fields[k] == rest[k - 1]);
                    }
                }
            } else {
                let k = choose|k: int|
                    0 <= k < rest.len() && loc.len() > 0 && loc == #[trigger] place_name(rest[k].1) && forall|j: int|
                        0 <= j < k ==> (#[trigger] place_name(rest[j].1)).len() == 0;
                assert(fields[k + 1] == rest[k]);
                assert forall|j: int| 0 <= j < k + 1 implies (#[trigger] place_name(fields[j].1)).len() == 0 by {
                    if j > 0 {
                        assert(fields[j] == rest[j - 1]);
                    }
                }
                assert(loc == place_name(fields[k + 1].1));
            }
        } else {
            assert(first_location(fields)->Ok_0 == name);
            assert(name == place_name(fields[0].1));
        }
    }
}

/// An event with a `locations` map is located by the shown name of the first
/// of its places that has one, or by nothing where none has.
pub proof fn location_is_the_first_named_place(event: JsonTree, places: Seq<(Seq<char>, JsonTree)>)
    requires
        event.at("locations"@) == JsonTree::Object(places),
        location_spec(event) is Ok,
    ensures
        first_named_place(places, location_spec(event)->Ok_0),
{
    lemma_first_location(places);
}

/// An event without a `locations` map (the member null or absent) that has
/// a legacy `location` text within the text limit is located by that text
/// with its control characters removed (cut to `MAX_TEXT_CHARS`
/// characters), and its row, where it has one, shows exactly that.
pub proof fn legacy_location_is_shown(
    tokens: Seq<Seq<char>>,
    remotes: Seq<Seq<char>>,
    event: JsonTree,
    legacy: Seq<char>,
    start_midnight: Option<i64>,
    end_midnight: Option<i64>,
    range_start: i64,
    range_end: i64,
)
    requires
        event.at("locations"@) == JsonTree::Null,
        event.at("location"@) == JsonTree::Str(legacy),
        byte_len(legacy) <= MAX_TEXT_BYTES,
    ensures
        location_spec(event) == Ok::<Seq<char>, Seq<char>>(prefix(without_controls(legacy), MAX_TEXT_CHARS as int)),
        event_row_spec(tokens, remotes, event, start_midnight, end_midnight, range_start, range_end) matches Some(
            Ok(Some(row)),
        ) ==> row.at("location"@) == JsonTree::Str(prefix(without_controls(legacy), MAX_TEXT_CHARS as int)),
{
    if let Some(Ok(Some(row))) = event_row_spec(tokens, remotes, event, start_midnight, end_midnight, range_start, range_end) {
        let (remote_id, status, k) = event_header_spec(remotes, event)->Ok_0->Some_0;
        let (start, end, tzid, all_day) = event_times_spec(event, start_midnight, end_midnight)->Ok_0;
        let (organizer, attendees) = people_spec(event.at("participants"@))->Some_0->Ok_0;
        let title = clean_text_spec(event.at("title"@).str_or(Seq::empty()))->Ok_0;
        let summary = if title.len() == 0 {
            "Untitled event"@
        } else {
            title
        };
        let id = event_token_spec(tokens[k], remote_id)->Ok_0;
        let uid = clean_text_spec(event.at("uid"@).str_or(remote_id))->Ok_0;
        let description = clean_text_spec(event.at("description"@).str_or(Seq::empty()))->Ok_0;
        let location = location_spec(event)->Ok_0;
        assert(row == event_json(
            id,
            start,
            summary,
            tokens[k],
            uid,
            description,
            location,
            status,
            organizer,
            attendees,
            end,
            all_day,
            tzid,
        ));
        lemma_event_json_location(
            id,
            start,
            summary,
            tokens[k],
            uid,
            description,
            location,
            status,
            organizer,
            attendees,
            end,
            all_day,
            tzid,
        );
    }
}

proof fn lemma_event_rows_within(
    tokens: Seq<Seq<char>>,
    remotes: Seq<Seq<char>>,
    events: Seq<JsonTree>,
    midnights: Seq<(Option<i64>, Option<i64>)>,
    range_start: i64,
    range_end: i64,
)
    requires
        midnights.len() == events.len(),
        event_rows(tokens, remotes, events, midnights, range_start, range_end) matches Some(Ok(_)),
    ensures
        event_rows(tokens, remotes, events, midnights, range_start, range_end) matches Some(Ok(rows)) && rows.len()
            <= events.len() && forall|i: int|
            0 <= i < rows.len() ==> row_within(#[trigger] rows[i], range_start, range_end) && row_from_requested(
                rows[i],
                tokens,
                remotes,
            ),
    decreases events.len(),
{
    if events.len() > 0 {
        let n = events.len() - 1;
        lemma_event_rows_within(tokens, remotes, events.drop_last(), midnights.take(n), range_start, range_end);
        let event = events[n];
        match event_row_spec(tokens, remotes, event, midnights[n].0, midnights[n].1, range_start, range_end) {
            Some(Ok(Some(row))) => {
                let (remote_id, status, k) = event_header_spec(remotes, event)->Ok_0->Some_0;
                let (start, end, tzid, all_day) = event_times_spec(event, midnights[n].0, midnights[n].1)->Ok_0;
                let (organizer, attendees) = people_spec(event.at("participants"@))->Some_0->Ok_0;
                let title = clean_text_spec(event.at("title"@).str_or(Seq::empty()))->Ok_0;
                let summary = if title.len() == 0 {
                    "Untitled event"@
                } else {
                    title
                };
                let id = event_token_spec(tokens[k], remote_id)->Ok_0;
                let uid = clean_text_spec(event.at("uid"@).str_or(remote_id))->Ok_0;
                let description = clean_text_spec(event.at("description"@).str_or(Seq::empty()))->Ok_0;
                let location = location_spec(event)->Ok_0;
                lemma_header_source(remotes, event);
                lemma_event_json_within(
                    id,
                    start,
                    summary,
                    tokens[k],
                    uid,
                    description,
                    location,
                    status,
                    organizer,
                    attendees,
                    end,
                    all_day,
                    tzid,
                    range_start,
                    range_end,
                );
            },
            _ => {},
        }
    }
}

/// Every row of an answer may be shown for the range: it starts before the
/// range ends, ends after the range starts and after it starts, is not
/// cancelled, and names one of the requested calendars as its source; and
/// there are no more rows than events.
pub proof fn answer_rows_lie_in_the_range(
    tokens: Seq<Seq<char>>,
    remotes: Seq<Seq<char>>,
    events: Seq<JsonTree>,
    range_start: i64,
    range_end: i64,
    answer: JsonTree,
)
    requires
        normalize_events_ok(tokens, remotes, events, range_start, range_end, Ok(answer)),
    ensures
        answer.at("events"@).as_array() matches Some(rows) && rows.len() <= events.len() && forall|i: int|
            0 <= i < rows.len() ==> row_within(#[trigger] rows[i], range_start, range_end) && row_from_requested(
                rows[i],
                tokens,
                remotes,
            ),
{
    broadcast use vstd::seq_lib::group_to_multiset_ensures;
    let midnights = choose|midnights: Seq<(Option<i64>, Option<i64>)>|
        #![trigger event_rows(tokens, remotes, events, midnights, range_start, range_end)]
        midnights.len() == events.len() && fits_all(events, midnights) && match event_rows(
            tokens,
            remotes,
            events,
            midnights,
            range_start,
            range_end,
        ) {
            None => false,
            Some(Err(e)) => Ok::<JsonTree, Seq<char>>(answer) == Err::<JsonTree, Seq<char>>(e),
            Some(Ok(rows)) => match Ok::<JsonTree, Seq<char>>(answer) {
                Ok(JsonTree::Object(fields)) => fields.len() == 1 && fields[0].0 == "events"@
                    && match fields[0].1 {
                    JsonTree::Array(sorted) => sorted.to_multiset() == rows.to_multiset()
                        && (forall|i: int, j: int|
                        0 <= i < j < sorted.len() ==> lex_le(
                            row_key(#[trigger] sorted[i]),
                            row_key(#[trigger] sorted[j]),
                        )) && forall|key: Seq<i64>|
                        #[trigger] sorted.filter(row_key_is(key)) == rows.filter(row_key_is(key)),
                    _ => false,
                },
                _ => false,
            },
        };
    lemma_event_rows_within(tokens, remotes, events, midnights, range_start, range_end);
    let rows = event_rows(tokens, remotes, events, midnights, range_start, range_end)->Some_0->Ok_0;
    let fields = answer->Object_0;
    lemma_lookup_first(fields, "events"@, 0);
    let sorted = fields[0].1->Array_0;
    assert(sorted.len() == rows.len()) by {
        assert(sorted.len() == sorted.to_multiset().len());
        assert(rows.len() == rows.to_multiset().len());
    }
    assert forall|i: int| 0 <= i < sorted.len() implies row_within(#[trigger] sorted[i], range_start, range_end)
        && row_from_requested(sorted[i], tokens, remotes) by {
        assert(sorted.contains(sorted[i]));
        assert(sorted.to_multiset().count(sorted[i]) > 0);
        assert(rows.contains(sorted[i]));
        let j = choose|j: int| 0 <= j < rows.len() && rows[j] == sorted[i];
        assert(row_within(rows[j], range_start, range_end) && row_from_requested(rows[j], tokens, remotes));
    }
}

/// No event reaches a participant role map without an `owner` entry,
/// whatever local midnights the machine reports.
pub open spec fn normalize_total(
    tokens: Seq<Seq<char>>,
    remotes: Seq<Seq<char>>,
    events: Seq<JsonTree>,
    range_start: i64,
    range_end: i64,
) -> bool {
    forall|midnights: Seq<(Option<i64>, Option<i64>)>|
        midnights.len() == events.len() ==> #[trigger] event_rows(
            tokens,
            remotes,
            events,
            midnights,
            range_start,
            range_end,
        ) is Some
}

/// The `{"events": rows}` answer: the rows of the events for some local
/// midnights, reordered by start, summary and id.
pub open spec fn normalize_events_ok(
    tokens: Seq<Seq<char>>,
    remotes: Seq<Seq<char>>,
    events: Seq<JsonTree>,
    range_start: i64,
    range_end: i64,
    answer: Result<JsonTree, Seq<char>>,
) -> bool {
    exists|midnights: Seq<(Option<i64>, Option<i64>)>|
        #![trigger event_rows(tokens, remotes, events, midnights, range_start, range_end)]
        midnights.len() == events.len() && fits_all(events, midnights) && match event_rows(
            tokens,
            remotes,
            events,
            midnights,
            range_start,
            range_end,
        ) {
            None => false,
            Some(Err(e)) => answer == Err::<JsonTree, Seq<char>>(e),
            Some(Ok(rows)) => match answer {
                Ok(JsonTree::Object(fields)) => fields.len() == 1 && fields[0].0 == "events"@
                    && match fields[0].1 {
                    JsonTree::Array(sorted) => sorted.to_multiset() == rows.to_multiset()
                        && (forall|i: int, j: int|
                        0 <= i < j < sorted.len() ==> lex_le(
                            row_key(#[trigger] sorted[i]),
                            row_key(#[trigger] sorted[j]),
                        )) && forall|key: Seq<i64>|
                        #[trigger] sorted.filter(row_key_is(key)) == rows.filter(row_key_is(key)),
                    _ => false,
                },
                _ => false,
            },
        }
}

pub fn memberships(ids: &Vec<(String, Json)>) -> (r: Result<(), &'static str>)
    ensures
        unit_result(r) == memberships_ok(field_trees(ids@)),
{
    let ghost fields = field_trees(ids@);
    let mut i: usize = 0;
    proof {
        assert(fields.skip(0) =~= fields);
    }
    while i < ids.len()
        invariant
            i <= ids@.len(),
            fields == field_trees(ids@),
            memberships_ok(fields) == memberships_ok(fields.skip(i as int)),
        decreases ids.len() - i,
    {
        proof {
            assert(fields.skip(i as int).drop_first() =~= fields.skip(i as int + 1));
            assert(fields.skip(i as int)[0] == fields[i as int]);
            assert(fields[i as int] == (ids@[i as int].0@, ids@[i as int].1.tree()));
        }
        bounded_id(ids[i].0.as_str())?;
        if ids[i].1.as_bool().is_none() {
            return Err(INVALID_RESPONSE);
        }
        i += 1;
    }
    proof {
        assert(fields.skip(i as int) =~= Seq::<(Seq<char>, JsonTree)>::empty());
    }
    Ok(())
}

/// The first requested calendar of which the event is a member.
pub fn selected_source(remotes: &[String], ids: &Json) -> (r: Option<usize>)
    requires
        ids.tree().as_object() is Some,
    ensures
        match r {
            Some(k) => first_selected(strings(remotes@), ids.tree()->Object_0, 0) == Some(k as int),
            None => first_selected(strings(remotes@), ids.tree()->Object_0, 0) is None,
        },
{
    let ghost wanted = strings(remotes@);
    let ghost fields = ids.tree()->Object_0;
    let mut k: usize = 0;
    while k < remotes.len()
        invariant
            k <= remotes@.len(),
            wanted == strings(remotes@),
            fields == ids.tree()->Object_0,
            ids.tree().as_object() is Some,
            first_selected(wanted, fields, 0) == first_selected(wanted, fields, k as int),
        decreases remotes.len() - k,
    {
        let member = ids.member(remotes[k].as_str());
        let selected = match member {
            Some(flag) => flag.is_true(),
            None => false,
        };
        proof {
            assert(wanted[k as int] == remotes@[k as int]@);
            assert(ids.tree().member(wanted[k as int]) == lookup(fields, wanted[k as int]));
        }
        if selected {
            return Some(k);
        }
        k += 1;
    }
    None
}

pub open spec fn row_result(r: Result<Option<(Vec<i64>, Json)>, &'static str>) -> Result<Option<JsonTree>, Seq<char>> {
    match r {
        Ok(Some(pair)) => Ok(Some(pair.1.tree())),
        Ok(None) => Ok(None),
        Err(e) => Err(e@),
    }
}

pub open spec fn header_result(r: Result<Option<(&str, String, usize)>, &'static str>) -> Result<Option<(Seq<char>, Seq<char>, int)>, Seq<char>> {
    match r {
        Ok(Some((id, status, k))) => Ok(Some((id@, status@, k as int))),
        Ok(None) => Ok(None),
        Err(e) => Err(e@),
    }
}

/// The first checks of an event; see [`event_header_spec`].
fn event_header<'a>(remotes: &[String], event: &'a Json) -> (r: Result<Option<(&'a str, String, usize)>, &'static str>)
    ensures
        header_result(r) == event_header_spec(strings(remotes@), event.tree()),
        r matches Ok(Some((_, _, k))) ==> k < remotes@.len(),
{
    let ghost t = event.tree();
    let ghost rems = strings(remotes@);
    proof {
        reveal_strlit("");
        reveal_strlit("CANCELLED");
    }
    validate_object(event)?;
    let remote_id = match str_of(at(Some(event), "id")) {
        Some(id) => id,
        None => return Err(INVALID_RESPONSE),
    };
    bounded_id(remote_id)?;
    let status_value = at(Some(event), "status");
    let status_text = match str_of(status_value) {
        Some(text) => text,
        None => "",
    };
    proof {
        assert(opt_tree(status_value) == t.at("status"@));
        assert(status_text@ == t.at("status"@).str_or(Seq::empty()));
    }
    let raw_status = clean_text(status_text)?;
    let status = to_uppercase(raw_status.as_str());
    if crate::text::str_eq(status.as_str(), "CANCELLED") {
        return Ok(None);
    }
    let ids_value = at(Some(event), "calendarIds");
    proof {
        assert(opt_tree(ids_value) == t.at("calendarIds"@));
    }
    let ids = match object_of(ids_value) {
        Some(ids) => ids,
        None => return Err(INVALID_RESPONSE),
    };
    if ids.len() > MAX_CALENDARS {
        return Err(TOO_LARGE);
    }
    memberships(ids)?;
    let ids_json = match ids_value {
        Some(v) => v,
        None => return Err(INVALID_RESPONSE),
    };
    let k = match selected_source(remotes, ids_json) {
        Some(k) => k,
        None => return Ok(None),
    };
    proof {
        lemma_first_selected_bound(rems, ids_json.tree()->Object_0, 0);
    }
    Ok(Some((remote_id, status, k)))
}

pub open spec fn times_result(r: Result<(i64, i64, String, bool), &'static str>) -> Result<(i64, i64, Seq<char>, bool), Seq<char>> {
    match r {
        Ok((s, e, tz, all_day)) => Ok((s, e, tz@, all_day)),
        Err(e) => Err(e@),
    }
}

/// The instants of an event, and the local midnights the machine reported.
fn event_times(event: &Json) -> (res: (Result<(i64, i64, String, bool), &'static str>, Ghost<(Option<i64>, Option<i64>)>))
    ensures
        times_result(res.0) == event_times_spec(event.tree(), res.1@.0, res.1@.1),
        midnights_fit(event.tree(), res.1@.0, res.1@.1),
{
    let ghost t = event.tree();
    let ghost none: (Option<i64>, Option<i64>) = (None, None);
    proof {
        reveal_strlit("");
    }
    let utc_start = match utc_ms(at(Some(event), "utcStart")) {
        Ok(ms) => ms,
        Err(e) => return (Err(e), Ghost(none)),
    };
    let utc_end = match utc_ms(at(Some(event), "utcEnd")) {
        Ok(ms) => ms,
        Err(e) => return (Err(e), Ghost(none)),
    };
    if utc_end <= utc_start {
        return (Err(INVALID_RESPONSE), Ghost(none));
    }
    let all_day_value = at(Some(event), "showWithoutTime");
    proof {
        assert(opt_tree(all_day_value) == t.at("showWithoutTime"@));
    }
    if is_true(all_day_value) {
        let times = all_day_times(event);
        let ghost mids = choose|mids: (Option<i64>, Option<i64>)|
            midnights_fit(t, mids.0, mids.1) && pair_result(times) == all_day_times_spec(t, mids.0, mids.1);
        proof {
            let (sm, em) = choose|sm: Option<i64>, em: Option<i64>|
                midnights_fit(t, sm, em) && pair_result(times) == all_day_times_spec(t, sm, em);
            assert(midnights_fit(t, (sm, em).0, (sm, em).1) && pair_result(times) == all_day_times_spec(t, (sm, em).0, (sm, em).1));
        }
        match times {
            Ok((start, end)) => (Ok((start, end, String::new(), true)), Ghost(mids)),
            Err(e) => (Err(e), Ghost(mids)),
        }
    } else {
        let zone_value = at(Some(event), "timeZone");
        let zone = match str_of(zone_value) {
            Some(text) => text,
            None => "",
        };
        proof {
            assert(opt_tree(zone_value) == t.at("timeZone"@));
            assert(zone@ == t.at("timeZone"@).str_or(Seq::empty()));
        }
        match clean_text(zone) {
            Ok(tz) => (Ok((utc_start, utc_end, tz, false)), Ghost(none)),
            Err(e) => (Err(e), Ghost(none)),
        }
    }
}

/// The JSON array of some texts.
pub fn texts_array(values: &Vec<String>) -> (r: Json)
    ensures
        r.tree() == texts_json(strings(values@)),
{
    let ghost texts = strings(values@);
    let mut items: Vec<Json> = Vec::new();
    let mut a: usize = 0;
    while a < values.len()
        invariant
            a <= values@.len(),
            texts == strings(values@),
            trees(items@) == Seq::new(a as nat, |i: int| JsonTree::Str(texts[i])),
        decreases values.len() - a,
    {
        let ghost before = items@;
        let value = text(values[a].as_str());
        proof {
            lemma_trees_push(before, value);
            assert(texts[a as int] == values@[a as int]@);
        }
        items.push(value);
        a += 1;
        assert(trees(items@) =~= Seq::new(a as nat, |i: int| JsonTree::Str(texts[i])));
    }
    let r = array(items);
    assert(r.tree()->Array_0 =~= texts_json(texts)->Array_0);
    r
}

/// The start or end object of a row.
fn time_object(ms: i64, all_day: bool, tzid: &str) -> (r: Json)
    ensures
        r.tree() == time_json(ms, all_day, tzid@),
{
    let r = object(vec![
        ("ms".to_owned(), integer(ms)),
        ("allDay".to_owned(), Json::Bool(all_day)),
        ("tzid".to_owned(), text(tzid)),
        ("resolved".to_owned(), Json::Bool(true)),
    ]);
    assert(r.tree()->Object_0 =~= time_json(ms, all_day, tzid@)->Object_0);
    r
}

pub open spec fn fields_result(r: Result<(Vec<i64>, Json), &'static str>) -> Result<Option<JsonTree>, Seq<char>> {
    match r {
        Ok(pair) => Ok(Some(pair.1.tree())),
        Err(e) => Err(e@),
    }
}

/// The row of an event that is shown, with its ordering key.
fn event_fields(
    source_id: &str,
    event: &Json,
    remote_id: &str,
    status: String,
    start: i64,
    end: i64,
    all_day: bool,
    tzid: String,
    organizer: String,
    attendees: &Vec<String>,
) -> (r: Result<(Vec<i64>, Json), &'static str>)
    ensures
        fields_result(r) == event_row_fields(
            source_id@,
            event.tree(),
            remote_id@,
            status@,
            start,
            end,
            all_day,
            tzid@,
            organizer@,
            strings(attendees@),
        ),
        r matches Ok(pair) ==> pair.0@ == row_key(pair.1.tree()),
{
    proof {
        reveal_strlit("");
    }
    let title = clean_text(match str_of(at(Some(event), "title")) {
        Some(text) => text,
        None => "",
    })?;
    let summary = if title.as_str().is_empty() {
        "Untitled event".to_owned()
    } else {
        title
    };
    let id = event_token(source_id, remote_id)?;
    let uid = clean_text(match str_of(at(Some(event), "uid")) {
        Some(text) => text,
        None => remote_id,
    })?;
    let description = clean_text(match str_of(at(Some(event), "description")) {
        Some(text) => text,
        None => "",
    })?;
    let place = location(event)?;
    let mut key: Vec<i64> = Vec::new();
    key.push(start);
    push_text_key(&mut key, summary.as_str());
    push_text_key(&mut key, id.as_str());
    let attendee_list = texts_array(attendees);
    let start_json = time_object(start, all_day, tzid.as_str());
    let end_json = time_object(end, all_day, tzid.as_str());
    let ghost expected = event_json(
        id@,
        start,
        summary@,
        source_id@,
        uid@,
        description@,
        place@,
        status@,
        organizer@,
        strings(attendees@),
        end,
        all_day,
        tzid@,
    );
    let row = object(vec![
        ("id".to_owned(), Json::Str(id)),
        ("start".to_owned(), start_json),
        ("summary".to_owned(), Json::Str(summary)),
        ("sourceId".to_owned(), text(source_id)),
        ("uid".to_owned(), Json::Str(uid)),
        ("description".to_owned(), Json::Str(description)),
        ("location".to_owned(), Json::Str(place)),
        ("meetLink".to_owned(), text("")),
        ("status".to_owned(), Json::Str(status)),
        ("organizer".to_owned(), Json::Str(organizer)),
        ("attendees".to_owned(), attendee_list),
        ("end".to_owned(), end_json),
    ]);
    proof {
        assert(""@ =~= Seq::<char>::empty());
        assert(row.tree()->Object_0 =~= expected->Object_0);
        lemma_row_key(id@, start, summary@, source_id@, uid@, description@, place@, status@, organizer@, strings(attendees@), end, all_day, tzid@);
        assert(key@ =~= seq![start] + text_key(summary@) + text_key(id@));
    }
    Ok((key, row))
}

proof fn lemma_row_key(
    id: Seq<char>,
    start: i64,
    summary: Seq<char>,
    source_id: Seq<char>,
    uid: Seq<char>,
    description: Seq<char>,
    location: Seq<char>,
    status: Seq<char>,
    organizer: Seq<char>,
    attendees: Seq<Seq<char>>,
    end: i64,
    all_day: bool,
    tzid: Seq<char>,
)
    ensures
        row_key(event_json(id, start, summary, source_id, uid, description, location, status, organizer, attendees, end, all_day, tzid))
            == seq![start] + text_key(summary) + text_key(id),
{
    reveal_strlit("id");
    reveal_strlit("start");
    reveal_strlit("summary");
    reveal_strlit("ms");
    let row = event_json(id, start, summary, source_id, uid, description, location, status, organizer, attendees, end, all_day, tzid);
    let fields = row->Object_0;
    assert(fields[0].0 == "id"@);
    assert(fields[1].0 == "start"@);
    assert(fields[2].0 == "summary"@);
    assert("id"@.len() == 2);
    assert("start"@.len() == 5);
    assert("summary"@.len() == 7);
    assert(fields[0].0 != "start"@);
    assert(fields[0].0 != "summary"@);
    assert(fields[1].0 != "summary"@);
    assert(lookup(fields, "id"@) == Some(JsonTree::Str(id)));
    assert(lookup(fields.drop_first(), "start"@) == Some(time_json(start, all_day, tzid)));
    assert(lookup(fields, "start"@) == Some(time_json(start, all_day, tzid)));
    assert(lookup(fields.drop_first().drop_first(), "summary"@) == Some(JsonTree::Str(summary)));
    assert(lookup(fields.drop_first(), "summary"@) == Some(JsonTree::Str(summary)));
    assert(lookup(fields, "summary"@) == Some(JsonTree::Str(summary)));
    assert(lookup(time_json(start, all_day, tzid)->Object_0, "ms"@) == Some(int_tree(start)));
}

/// The row of one event with its ordering key, and the local midnights the
/// machine reported for it.
pub open spec fn opt_row_result(r: Option<Result<Option<(Vec<i64>, Json)>, &'static str>>) -> Option<
    Result<Option<JsonTree>, Seq<char>>,
> {
    match r {
        Some(x) => Some(row_result(x)),
        None => None,
    }
}

/// The row of one event, and the local midnights the machine reported for
/// it; `None` where a role map it reads lacks `owner`.
fn event_row(
    tokens: &[String],
    remotes: &[String],
    event: &Json,
    range_start: i64,
    range_end: i64,
) -> (res: (Option<Result<Option<(Vec<i64>, Json)>, &'static str>>, Ghost<(Option<i64>, Option<i64>)>))
    requires
        tokens@.len() >= remotes@.len(),
    ensures
        event_row_spec(
            strings(tokens@),
            strings(remotes@),
            event.tree(),
            res.1@.0,
            res.1@.1,
            range_start,
            range_end,
        ) == opt_row_result(res.0),
        midnights_fit(event.tree(), res.1@.0, res.1@.1),
        res.0 matches Some(Ok(Some(pair))) ==> pair.0@ == row_key(pair.1.tree()),
{
    let ghost none: (Option<i64>, Option<i64>) = (None, None);
    let ghost toks = strings(tokens@);
    let (remote_id, status, k) = match event_header(remotes, event) {
        Ok(Some(header)) => header,
        Ok(None) => return (Some(Ok(None)), Ghost(none)),
        Err(e) => return (Some(Err(e)), Ghost(none)),
    };
    let (times, mids) = event_times(event);
    let (start, end, tzid, all_day) = match times {
        Ok(found) => found,
        Err(e) => return (Some(Err(e)), mids),
    };
    if start >= range_end || end <= range_start {
        return (Some(Ok(None)), mids);
    }
    let (organizer, attendees) = match people_or_none(at(Some(event), "participants")) {
        Some(Ok(found)) => found,
        Some(Err(e)) => return (Some(Err(e)), mids),
        None => return (None, mids),
    };
    proof {
        assert(toks[k as int] == tokens@[k as int]@);
    }
    match event_fields(
        tokens[k].as_str(),
        event,
        remote_id,
        status,
        start,
        end,
        all_day,
        tzid,
        organizer,
        &attendees,
    ) {
        Ok(pair) => (Some(Ok(Some(pair))), mids),
        Err(e) => (Some(Err(e)), mids),
    }
}

proof fn lemma_event_rows_unfold(
    tokens: Seq<Seq<char>>,
    remotes: Seq<Seq<char>>,
    events: Seq<JsonTree>,
    midnights: Seq<(Option<i64>, Option<i64>)>,
    i: int,
    range_start: i64,
    range_end: i64,
)
    requires
        0 <= i < events.len(),
        midnights.len() == i + 1,
    ensures
        event_rows(tokens, remotes, events.take(i + 1), midnights, range_start, range_end) == match event_rows(
            tokens,
            remotes,
            events.take(i),
            midnights.take(i),
            range_start,
            range_end,
        ) {
            None => None,
            Some(Err(e)) => Some(Err(e)),
            Some(Ok(rows)) => match event_row_spec(
                tokens,
                remotes,
                events[i],
                midnights[i].0,
                midnights[i].1,
                range_start,
                range_end,
            ) {
                None => None,
                Some(Err(e)) => Some(Err(e)),
                Some(Ok(None)) => Some(Ok(rows)),
                Some(Ok(Some(row))) => Some(Ok(rows.push(row))),
            },
        },
{
    assert(events.take(i + 1).drop_last() =~= events.take(i));
    assert(events.take(i + 1)[i] == events[i]);
}

/// A panic or a refusal among the first `j` events is the outcome of all of them.
proof fn lemma_event_rows_extend(
    tokens: Seq<Seq<char>>,
    remotes: Seq<Seq<char>>,
    events: Seq<JsonTree>,
    midnights: Seq<(Option<i64>, Option<i64>)>,
    j: int,
    range_start: i64,
    range_end: i64,
)
    requires
        0 <= j <= events.len(),
        midnights.len() == events.len(),
    ensures
        event_rows(tokens, remotes, events.take(j), midnights.take(j), range_start, range_end) is None
            ==> event_rows(tokens, remotes, events, midnights, range_start, range_end) is None,
        event_rows(tokens, remotes, events.take(j), midnights.take(j), range_start, range_end) matches Some(Err(e))
            ==> event_rows(tokens, remotes, events, midnights, range_start, range_end) == Some(
            Err::<Seq<JsonTree>, Seq<char>>(e),
        ),
    decreases events.len() - j,
{
    if j < events.len() {
        lemma_event_rows_unfold(tokens, remotes, events, midnights.take(j + 1), j, range_start, range_end);
        assert(midnights.take(j + 1).take(j) =~= midnights.take(j));
        lemma_event_rows_extend(tokens, remotes, events, midnights, j + 1, range_start, range_end);
    } else {
        assert(events.take(j) =~= events);
        assert(midnights.take(j) =~= midnights);
    }
}

/// Local midnights for all events: these for the first ones, none for the rest.
pub open spec fn padded(midnights: Seq<(Option<i64>, Option<i64>)>, n: int) -> Seq<(Option<i64>, Option<i64>)> {
    midnights + Seq::new((n - midnights.len()) as nat, |k: int| (None::<i64>, None::<i64>))
}

/// Some local midnights, fitting the events, for which the projection reads
/// a role map without an `owner` entry.
pub open spec fn reaches_ownerless_roles(
    tokens: Seq<Seq<char>>,
    remotes: Seq<Seq<char>>,
    events: Seq<JsonTree>,
    range_start: i64,
    range_end: i64,
) -> bool {
    exists|midnights: Seq<(Option<i64>, Option<i64>)>|
        #![trigger event_rows(tokens, remotes, events, midnights, range_start, range_end)]
        midnights.len() == events.len() && fits_all(events, midnights) && event_rows(
            tokens,
            remotes,
            events,
            midnights,
            range_start,
            range_end,
        ) is None
}

/// The projection of the events, or `None` where, for the local midnights
/// the machine reported, it reads a role map without an `owner` entry.
fn normalize_rows(
    account: &str,
    source_tokens: &[String],
    remote_sources: &[String],
    events: &[Json],
    range_start: i64,
    range_end: i64,
) -> (r: Option<Result<Json, &'static str>>)
    requires
        source_tokens@.len() >= remote_sources@.len(),
    ensures
        r is None ==> reaches_ownerless_roles(strings(source_tokens@), strings(remote_sources@), trees(events@), range_start, range_end),
        r matches Some(answer) ==> normalize_events_ok(
            strings(source_tokens@),
            strings(remote_sources@),
            trees(events@),
            range_start,
            range_end,
            json_result(answer),
        ),
{
    let ghost toks = strings(source_tokens@);
    let ghost rems = strings(remote_sources@);
    let ghost evs = trees(events@);
    let ghost n = events@.len() as int;
    let ghost mut mids: Seq<(Option<i64>, Option<i64>)> = Seq::empty();
    let mut pairs: Vec<(Vec<i64>, Json)> = Vec::new();
    let mut i: usize = 0;
    proof {
        assert(evs.take(0) =~= Seq::<JsonTree>::empty());
        assert(Seq::new(pairs@.len(), |k: int| pairs@[k].1.tree()) =~= Seq::<JsonTree>::empty());
    }
    while i < events.len()
        invariant
            i <= events@.len(),
            n == events@.len(),
            toks == strings(source_tokens@),
            rems == strings(remote_sources@),
            evs == trees(events@),
            source_tokens@.len() >= remote_sources@.len(),
            mids.len() == i,
            forall|k: int| 0 <= k < i ==> #[trigger] midnights_fit(evs[k], mids[k].0, mids[k].1),
            event_rows(toks, rems, evs.take(i as int), mids, range_start, range_end) == Some(
                Ok::<Seq<JsonTree>, Seq<char>>(Seq::new(pairs@.len(), |k: int| pairs@[k].1.tree())),
            ),
            forall|k: int| 0 <= k < pairs@.len() ==> (#[trigger] pairs@[k]).0@ == row_key(pairs@[k].1.tree()),
        decreases events.len() - i,
    {
        proof {
            assert(evs[i as int] == events@[i as int].tree());
        }
        let (outcome, mid) = event_row(source_tokens, remote_sources, &events[i], range_start, range_end);
        proof {
            lemma_event_rows_unfold(toks, rems, evs, mids.push(mid@), i as int, range_start, range_end);
            assert(mids.push(mid@).take(i as int) =~= mids);
            let before = mids;
            mids = mids.push(mid@);
            assert forall|k: int| 0 <= k < i + 1 implies #[trigger] midnights_fit(evs[k], mids[k].0, mids[k].1) by {
                if k < i {
                    assert(mids[k] == before[k]);
                }
            }
        }
        match outcome {
            Some(Ok(Some(pair))) => {
                let ghost before = Seq::new(pairs@.len(), |k: int| pairs@[k].1.tree());
                pairs.push(pair);
                assert(Seq::new(pairs@.len(), |k: int| pairs@[k].1.tree()) =~= before.push(pairs@[pairs@.len() - 1].1.tree()));
            },
            Some(Ok(None)) => {},
            None => {
                proof {
                    let full = padded(mids, n);
                    assert(full.len() == n);
                    assert(full.take(i as int + 1) =~= mids);
                    lemma_event_rows_extend(toks, rems, evs, full, i as int + 1, range_start, range_end);
                    assert(fits_all(evs, full)) by {
                        assert forall|k: int| 0 <= k < evs.len() implies #[trigger] midnights_fit(evs[k], full[k].0, full[k].1) by {
                            if k > i {
                                assert(full[k] == (None::<i64>, None::<i64>));
                            } else {
                                assert(full[k] == mids[k]);
                            }
                        }
                    }
                }
                return None;
            },
            Some(Err(e)) => {
                proof {
                    let full = padded(mids, n);
                    assert(full.len() == n);
                    assert(full.take(i as int + 1) =~= mids);
                    lemma_event_rows_extend(toks, rems, evs, full, i as int + 1, range_start, range_end);
                    assert(event_rows(toks, rems, evs, full, range_start, range_end) == Some(
                        Err::<Seq<JsonTree>, Seq<char>>(e@),
                    ));
                    assert(fits_all(evs, full)) by {
                        assert forall|k: int| 0 <= k < evs.len() implies #[trigger] midnights_fit(evs[k], full[k].0, full[k].1) by {
                            if k > i {
                                assert(full[k] == (None::<i64>, None::<i64>));
                            } else {
                                assert(full[k] == mids[k]);
                            }
                        }
                    }
                }
                return Some(Err(e));
            },
        }
        i += 1;
    }
    let ghost rows = Seq::new(pairs@.len(), |k: int| pairs@[k].1.tree());
    proof {
        assert(evs.take(n) =~= evs);
    }
    let ghost unsorted = pairs@;
    let sorted = sort_by_key(pairs);
    let ghost ordered = sorted@;
    let values = values_of(sorted);
    let ghost f = |p: (Vec<i64>, Json)| p.1.tree();
    proof {
        lemma_map_multiset(ordered, unsorted, f);
        assert(unsorted.map_values(f) =~= rows);
        assert(trees(values@) =~= ordered.map_values(f));
        assert forall|k: int| 0 <= k < ordered.len() implies (#[trigger] ordered[k]).0@ == row_key(ordered[k].1.tree()) by {
            broadcast use vstd::seq_lib::group_to_multiset_ensures;
            assert(ordered.contains(ordered[k]));
            assert(ordered.to_multiset().count(ordered[k]) > 0);
            assert(unsorted.to_multiset().count(ordered[k]) > 0);
            assert(unsorted.contains(ordered[k]));
            let j = choose|j: int| 0 <= j < unsorted.len() && unsorted[j] == ordered[k];
            assert(unsorted[j].0@ == row_key(unsorted[j].1.tree()));
        }
        assert forall|a: int, b: int| 0 <= a < b < trees(values@).len() implies lex_le(
            row_key(#[trigger] trees(values@)[a]),
            row_key(#[trigger] trees(values@)[b]),
        ) by {
            assert(lex_le(ordered[a].0@, ordered[b].0@));
        }
        assert forall|key: Seq<i64>| #[trigger] trees(values@).filter(row_key_is(key)) == rows.filter(row_key_is(key)) by {
            assert forall|i: int| 0 <= i < ordered.len() implies key_is(key)(#[trigger] ordered[i]) == row_key_is(key)(f(ordered[i])) by {}
            assert forall|i: int| 0 <= i < unsorted.len() implies key_is(key)(#[trigger] unsorted[i]) == row_key_is(key)(f(unsorted[i])) by {}
            lemma_filter_map(ordered, f, key_is(key), row_key_is(key));
            lemma_filter_map(unsorted, f, key_is(key), row_key_is(key));
            assert(with_key(ordered, key) == with_key(unsorted, key));
        }
    }
    let list = array(values);
    let out = object(vec![("events".to_owned(), list)]);
    proof {
        let fields = out.tree()->Object_0;
        assert(fields.len() == 1);
        assert(fields[0].0 == "events"@);
        assert(event_rows(toks, rems, evs, mids, range_start, range_end) == Some(Ok::<Seq<JsonTree>, Seq<char>>(rows)));
        assert(fits_all(evs, mids));
    }
    Some(Ok(out))
}

/// Normalizes the fetched events of the selected calendars into rows: a
/// cancelled event, one in no selected calendar, or one outside the
/// half-open range is left out; the rest are ordered by start, summary and id.
pub fn normalize_events(
    account: &str,
    source_tokens: &[String],
    remote_sources: &[String],
    events: &[Json],
    range_start: i64,
    range_end: i64,
) -> (r: Result<Json, &'static str>)
    requires
        source_tokens@.len() >= remote_sources@.len(),
        normalize_total(
            strings(source_tokens@),
            strings(remote_sources@),
            trees(events@),
            range_start,
            range_end,
        ),
    ensures
        normalize_events_ok(
            strings(source_tokens@),
            strings(remote_sources@),
            trees(events@),
            range_start,
            range_end,
            json_result(r),
        ),
{
    match normalize_rows(account, source_tokens, remote_sources, events, range_start, range_end) {
        Some(answer) => answer,
        None => {
            proof {
                let m = choose|midnights: Seq<(Option<i64>, Option<i64>)>|
                    #![trigger event_rows(strings(source_tokens@), strings(remote_sources@), trees(events@), midnights, range_start, range_end)]
                    midnights.len() == trees(events@).len() && fits_all(trees(events@), midnights) && event_rows(
                        strings(source_tokens@),
                        strings(remote_sources@),
                        trees(events@),
                        midnights,
                        range_start,
                        range_end,
                    ) is None;
                assert(event_rows(strings(source_tokens@), strings(remote_sources@), trees(events@), m, range_start, range_end) is Some);
            }
            Err(INVALID_RESPONSE)
        },
    }
}


// ---------------------------------------------------------------------------
// Requests, and the checks on what the server answers to them
// ---------------------------------------------------------------------------

/// The capabilities a calendar request uses.
pub open spec fn calendar_using_spec() -> JsonTree {
    JsonTree::Array(seq![JsonTree::Str(CORE@), JsonTree::Str(CALENDARS@)])
}

pub fn calendar_using() -> (r: Json)
    ensures
        r.tree() == calendar_using_spec(),
{
    let r = text_list(&[CORE, CALENDARS]);
    assert(r.tree()->Array_0 =~= calendar_using_spec()->Array_0);
    r
}

/// The `Calendar/get` arguments that read every calendar of the account.
pub open spec fn calendar_get_spec(account: Seq<char>) -> JsonTree {
    JsonTree::Object(
        seq![
            ("accountId"@, JsonTree::Str(account)),
            ("ids"@, JsonTree::Null),
            ("properties"@, JsonTree::Array(
                seq![
                    JsonTree::Str("id"@),
                    JsonTree::Str("name"@),
                    JsonTree::Str("isDefault"@),
                    JsonTree::Str("isSubscribed"@),
                    JsonTree::Str("isVisible"@),
                    JsonTree::Str("myRights"@),
                ],
            )),
        ],
    )
}

pub fn calendar_get(account: &str) -> (r: Json)
    ensures
        r.tree() == calendar_get_spec(account@),
{
    let properties = text_list(&["id", "name", "isDefault", "isSubscribed", "isVisible", "myRights"]);
    assert(properties.tree()->Array_0 =~= calendar_get_spec(account@)->Object_0[2].1->Array_0);
    let r = object(
        vec![
            ("accountId".to_owned(), text(account)),
            ("ids".to_owned(), Json::Null),
            ("properties".to_owned(), properties),
        ],
    );
    assert(r.tree()->Object_0 =~= calendar_get_spec(account@)->Object_0);
    r
}

/// One calendar of a `Calendar/get` list taken into the ids seen and the
/// bytes retained: its compact JSON size is charged first, then it must be a
/// bounded object with a valid id not seen before.
pub open spec fn calendar_step(read: (Seq<Seq<char>>, nat), calendar: JsonTree) -> Result<
    (Seq<Seq<char>>, nat),
    Seq<char>,
> {
    let (seen, used) = read;
    if used + json_size(calendar) > MAX_BODY {
        Err(TOO_LARGE@)
    } else {
        match validate_object_spec(calendar) {
            Err(e) => Err(e),
            Ok(_) => match calendar.at("id"@).as_str() {
                None => Err(INVALID_RESPONSE@),
                Some(id) => if !valid_id(id) || seen.contains(id) {
                    Err(INVALID_RESPONSE@)
                } else {
                    Ok((seen.push(id), (used + json_size(calendar)) as nat))
                },
            },
        }
    }
}

/// The first `n` calendars of a list checked in order.
pub open spec fn calendars_read(list: Seq<JsonTree>, n: int) -> Result<
    (Seq<Seq<char>>, nat),
    Seq<char>,
>
    decreases n,
{
    if n <= 0 {
        Ok((Seq::empty(), 0))
    } else {
        match calendars_read(list, n - 1) {
            Err(e) => Err(e),
            Ok(read) => calendar_step(read, list[n - 1]),
        }
    }
}

proof fn lemma_calendars_read_err(list: Seq<JsonTree>, k: int, n: int)
    requires
        0 <= k <= n,
        calendars_read(list, k) is Err,
    ensures
        calendars_read(list, n) == calendars_read(list, k),
    decreases n - k,
{
    if k < n {
        lemma_calendars_read_err(list, k, n - 1);
    }
}

/// The calendars of a `Calendar/get` answer: at most `MAX_CALENDARS`, each
/// a bounded object with a distinct valid id, all within `MAX_BODY` bytes.
pub open spec fn calendar_list_spec(arguments: JsonTree) -> Result<Seq<JsonTree>, Seq<char>> {
    match arguments.at("list"@).as_array() {
        None => Err(INVALID_RESPONSE@),
        Some(list) => if list.len() > MAX_CALENDARS {
            Err(TOO_LARGE@)
        } else {
            match calendars_read(list, list.len() as int) {
                Err(e) => Err(e),
                Ok(_) => Ok(list),
            }
        },
    }
}

/// Checks the arguments of a `Calendar/get` answer and gives its calendars.
pub fn calendar_list<'a>(arguments: &'a Json) -> (r: Result<&'a Vec<Json>, &'static str>)
    ensures
        match r {
            Ok(list) => calendar_list_spec(arguments.tree()) == Ok::<Seq<JsonTree>, Seq<char>>(trees(list@)),
            Err(e) => calendar_list_spec(arguments.tree()) == Err::<Seq<JsonTree>, Seq<char>>(e@),
        },
{
    let list = match array_of(at(Some(arguments), "list")) {
        Some(list) => list,
        None => return Err(INVALID_RESPONSE),
    };
    if list.len() > MAX_CALENDARS {
        return Err(TOO_LARGE);
    }
    let ghost items = trees(list@);
    let mut seen: Vec<String> = Vec::new();
    let mut used: usize = 0;
    let mut i: usize = 0;
    assert(strings(seen@) =~= Seq::<Seq<char>>::empty());
    #[verifier::loop_isolation(false)]
    while i < list.len()
        invariant
            i <= list@.len(),
            items == trees(list@),
            used <= MAX_BODY,
            calendars_read(items, i as int) == Ok::<(Seq<Seq<char>>, nat), Seq<char>>(
                (strings(seen@), used as nat),
            ),
        decreases list.len() - i,
    {
        let calendar = &list[i];
        assert(items[i as int] == calendar.tree());
        let size = match json_size_of(calendar) {
            Some(size) => size,
            None => MAX_BODY + 1,
        };
        if size > MAX_BODY - used {
            proof {
                lemma_calendars_read_err(items, i as int + 1, items.len() as int);
            }
            return Err(TOO_LARGE);
        }
        if let Err(e) = validate_object(calendar) {
            proof {
                lemma_calendars_read_err(items, i as int + 1, items.len() as int);
            }
            return Err(e);
        }
        let id = match str_of(at(Some(calendar), "id")) {
            Some(id) => id,
            None => {
                proof {
                    lemma_calendars_read_err(items, i as int + 1, items.len() as int);
                }
                return Err(INVALID_RESPONSE);
            },
        };
        if bounded_id(id).is_err() || seen_text(&seen, id) {
            proof {
                lemma_calendars_read_err(items, i as int + 1, items.len() as int);
            }
            return Err(INVALID_RESPONSE);
        }
        let ghost before = strings(seen@);
        seen.push(id.to_owned());
        assert(strings(seen@) =~= before.push(id@));
        used = used + size;
        i += 1;
    }
    Ok(list)
}

/// The `CalendarEvent/query` arguments: recurrences expanded in UTC, between
/// the two UTC wall-clock texts; no sort and no calendar filter.
pub open spec fn event_query_spec(account: Seq<char>, position: usize, limit: usize, after: Seq<char>, before: Seq<char>) -> JsonTree {
    JsonTree::Object(
        seq![
            ("accountId"@, JsonTree::Str(account)),
            ("timeZone"@, JsonTree::Str("Etc/UTC"@)),
            ("expandRecurrences"@, JsonTree::Bool(true)),
            ("filter"@, JsonTree::Object(
                seq![("after"@, JsonTree::Str(after)), ("before"@, JsonTree::Str(before))],
            )),
            ("position"@, JsonTree::UInt(position as u64)),
            ("limit"@, JsonTree::UInt(limit as u64)),
            ("calculateTotal"@, JsonTree::Bool(true)),
        ],
    )
}

pub open spec fn event_query_arguments_spec(account: Seq<char>, position: usize, limit: usize, start: i64, end: i64) -> Result<JsonTree, Seq<char>> {
    match utc_text(start) {
        None => Err(INVALID_PARAMS@),
        Some(after) => match utc_text(end) {
            None => Err(INVALID_PARAMS@),
            Some(before) => Ok(event_query_spec(account, position, limit, after, before)),
        },
    }
}

/// The arguments of one page of the event query over `[start, end)`.
pub fn event_query_arguments(account: &str, position: usize, limit: usize, start: i64, end: i64) -> (r: Result<Json, &'static str>)
    ensures
        json_result(r) == event_query_arguments_spec(account@, position, limit, start, end),
{
    let after = utc_local(start)?;
    let before = utc_local(end)?;
    let ghost a = after@;
    let ghost b = before@;
    let filter = object(vec![("after".to_owned(), Json::Str(after)), ("before".to_owned(), Json::Str(before))]);
    assert(filter.tree()->Object_0 =~= seq![("after"@, JsonTree::Str(a)), ("before"@, JsonTree::Str(b))]);
    let r = object(
        vec![
            ("accountId".to_owned(), text(account)),
            ("timeZone".to_owned(), text("Etc/UTC")),
            ("expandRecurrences".to_owned(), Json::Bool(true)),
            ("filter".to_owned(), filter),
            ("position".to_owned(), Json::UInt(position as u64)),
            ("limit".to_owned(), Json::UInt(limit as u64)),
            ("calculateTotal".to_owned(), Json::Bool(true)),
        ],
    );
    assert(r.tree()->Object_0 =~= event_query_spec(account@, position, limit, a, b)->Object_0);
    Ok(r)
}

/// The properties read of each event.
pub open spec fn event_properties_spec() -> Seq<Seq<char>> {
    seq![
        "id"@, "uid"@, "title"@, "description"@, "location"@, "locations"@, "participants"@,
        "status"@, "calendarIds"@, "showWithoutTime"@, "timeZone"@, "utcStart"@, "utcEnd"@,
        "start"@, "duration"@, "recurrenceId"@,
    ]
}

/// The `CalendarEvent/get` arguments for one chunk of ids.
pub open spec fn event_get_spec(account: Seq<char>, ids: Seq<Seq<char>>) -> JsonTree {
    JsonTree::Object(
        seq![
            ("accountId"@, JsonTree::Str(account)),
            ("ids"@, texts_json(ids)),
            ("properties"@, texts_json(event_properties_spec())),
        ],
    )
}

pub fn event_get(account: &str, ids: &Vec<String>) -> (r: Json)
    ensures
        r.tree() == event_get_spec(account@, strings(ids@)),
{
    let properties = text_list(
        &[
            "id",
            "uid",
            "title",
            "description",
            "location",
            "locations",
            "participants",
            "status",
            "calendarIds",
            "showWithoutTime",
            "timeZone",
            "utcStart",
            "utcEnd",
            "start",
            "duration",
            "recurrenceId",
        ],
    );
    assert(properties.tree()->Array_0 =~= texts_json(event_properties_spec())->Array_0);
    let r = object(
        vec![
            ("accountId".to_owned(), text(account)),
            ("ids".to_owned(), texts_array(ids)),
            ("properties".to_owned(), properties),
        ],
    );
    assert(r.tree()->Object_0 =~= event_get_spec(account@, strings(ids@))->Object_0);
    r
}

/// One event of a `CalendarEvent/get` list taken into the ids returned and
/// the bytes retained: a bounded object whose valid id was asked for and not
/// returned before; then its compact JSON size is charged.
pub open spec fn event_step(read: (Seq<Seq<char>>, nat), expected: Seq<Seq<char>>, event: JsonTree) -> Result<
    (Seq<Seq<char>>, nat),
    Seq<char>,
> {
    let (returned, used) = read;
    match validate_object_spec(event) {
        Err(e) => Err(e),
        Ok(_) => match event.at("id"@).as_str() {
            None => Err(INVALID_RESPONSE@),
            Some(id) => if !valid_id(id) || !expected.contains(id) || returned.contains(id) {
                Err(INVALID_RESPONSE@)
            } else if used + json_size(event) > MAX_BODY {
                Err(TOO_LARGE@)
            } else {
                Ok((returned.push(id), (used + json_size(event)) as nat))
            },
        },
    }
}

/// The first `n` events of a list checked in order, from `used` bytes.
pub open spec fn events_read(list: Seq<JsonTree>, expected: Seq<Seq<char>>, used: nat, n: int) -> Result<
    (Seq<Seq<char>>, nat),
    Seq<char>,
>
    decreases n,
{
    if n <= 0 {
        Ok((Seq::empty(), used))
    } else {
        match events_read(list, expected, used, n - 1) {
            Err(e) => Err(e),
            Ok(read) => event_step(read, expected, list[n - 1]),
        }
    }
}

proof fn lemma_events_read_err(list: Seq<JsonTree>, expected: Seq<Seq<char>>, used: nat, k: int, n: int)
    requires
        0 <= k <= n,
        events_read(list, expected, used, k) is Err,
    ensures
        events_read(list, expected, used, n) == events_read(list, expected, used, k),
    decreases n - k,
{
    if k < n {
        lemma_events_read_err(list, expected, used, k, n - 1);
    }
}

/// The events of a `CalendarEvent/get` answer for one chunk of ids, and the
/// bytes retained after them: every id asked for comes back exactly once and
/// nothing else does.
pub open spec fn event_chunk_spec(chunk: Seq<Seq<char>>, arguments: JsonTree, used: nat) -> Result<
    (Seq<JsonTree>, nat),
    Seq<char>,
> {
    match arguments.at("list"@).as_array() {
        None => Err(INVALID_RESPONSE@),
        Some(list) => match events_read(list, chunk, used, list.len() as int) {
            Err(e) => Err(e),
            Ok((returned, total)) => if returned.len() != distinct_count(chunk) {
                Err(INVALID_RESPONSE@)
            } else {
                Ok((list, total))
            },
        },
    }
}

/// Checks the arguments of a `CalendarEvent/get` answer for one chunk of
/// ids, charging each event's compact JSON size to the bytes already retained.
pub fn event_chunk<'a>(chunk: &[String], arguments: &'a Json, used: &mut usize) -> (r: Result<&'a Vec<Json>, &'static str>)
    ensures
        match r {
            Ok(list) => event_chunk_spec(strings(chunk@), arguments.tree(), *old(used) as nat)
                == Ok::<(Seq<JsonTree>, nat), Seq<char>>((trees(list@), *final(used) as nat)),
            Err(e) => event_chunk_spec(strings(chunk@), arguments.tree(), *old(used) as nat)
                == Err::<(Seq<JsonTree>, nat), Seq<char>>(e@),
        },
{
    let ghost start = *used;
    let ghost expected = strings(chunk@);
    let list = match array_of(at(Some(arguments), "list")) {
        Some(list) => list,
        None => return Err(INVALID_RESPONSE),
    };
    let ghost items = trees(list@);
    let mut returned: Vec<String> = Vec::new();
    let mut i: usize = 0;
    assert(strings(returned@) =~= Seq::<Seq<char>>::empty());
    #[verifier::loop_isolation(false)]
    while i < list.len()
        invariant
            i <= list@.len(),
            items == trees(list@),
            expected == strings(chunk@),
            events_read(items, expected, start as nat, i as int) == Ok::<(Seq<Seq<char>>, nat), Seq<char>>(
                (strings(returned@), *used as nat),
            ),
        decreases list.len() - i,
    {
        let event = &list[i];
        assert(items[i as int] == event.tree());
        if let Err(e) = validate_object(event) {
            proof {
                lemma_events_read_err(items, expected, start as nat, i as int + 1, items.len() as int);
            }
            return Err(e);
        }
        let id = match str_of(at(Some(event), "id")) {
            Some(id) => id,
            None => {
                proof {
                    lemma_events_read_err(items, expected, start as nat, i as int + 1, items.len() as int);
                }
                return Err(INVALID_RESPONSE);
            },
        };
        if bounded_id(id).is_err() || !seen_text(chunk, id) || seen_text(&returned, id) {
            proof {
                lemma_events_read_err(items, expected, start as nat, i as int + 1, items.len() as int);
            }
            return Err(INVALID_RESPONSE);
        }
        let charged = match json_size_of(event) {
            Some(size) => match used.checked_add(size) {
                Some(total) => total,
                None => MAX_BODY + 1,
            },
            None => MAX_BODY + 1,
        };
        if charged > MAX_BODY {
            proof {
                lemma_events_read_err(items, expected, start as nat, i as int + 1, items.len() as int);
            }
            return Err(TOO_LARGE);
        }
        let ghost before = strings(returned@);
        returned.push(id.to_owned());
        assert(strings(returned@) =~= before.push(id@));
        *used = charged;
        i += 1;
    }
    if returned.len() != count_distinct(chunk) {
        return Err(INVALID_RESPONSE);
    }
    Ok(list)
}


// ---------------------------------------------------------------------------
// Role maps without an owner entry
// ---------------------------------------------------------------------------

/// [`normalize_events`] on every input: `None`, and no projection, where the
/// projection reads a role map without an `owner` entry, which it indexes by
/// `owner`; that happens only for an event that is shown, and only for a
/// participant with a display text.
pub fn normalize_events_checked(
    account: &str,
    source_tokens: &[String],
    remote_sources: &[String],
    events: &[Json],
    range_start: i64,
    range_end: i64,
) -> (r: Option<Result<Json, &'static str>>)
    requires
        source_tokens@.len() >= remote_sources@.len(),
    ensures
        r is None ==> reaches_ownerless_roles(strings(source_tokens@), strings(remote_sources@), trees(events@), range_start, range_end),
        r matches Some(answer) ==> normalize_events_ok(
            strings(source_tokens@),
            strings(remote_sources@),
            trees(events@),
            range_start,
            range_end,
            json_result(answer),
        ),
{
    normalize_rows(account, source_tokens, remote_sources, events, range_start, range_end)
}

/// The remote calendars that the first `n` source tokens name.
pub open spec fn requested_from(tokens: Seq<Seq<char>>, account: Seq<char>, n: int) -> Result<Seq<Seq<char>>, Seq<char>>
    decreases n,
{
    if n <= 0 {
        Ok(Seq::empty())
    } else {
        match requested_from(tokens, account, n - 1) {
            Err(e) => Err(e),
            Ok(remotes) => match decode_token_spec(tokens[n - 1], account) {
                Err(e) => Err(e),
                Ok(remote) => Ok(remotes.push(remote)),
            },
        }
    }
}

proof fn lemma_requested_err(tokens: Seq<Seq<char>>, account: Seq<char>, k: int, n: int)
    requires
        0 <= k <= n,
        requested_from(tokens, account, k) is Err,
    ensures
        requested_from(tokens, account, n) == requested_from(tokens, account, k),
    decreases n - k,
{
    if k < n {
        lemma_requested_err(tokens, account, k, n - 1);
    }
}

pub open spec fn remotes_result(r: Result<Vec<String>, &'static str>) -> Result<Seq<Seq<char>>, Seq<char>> {
    match r {
        Ok(v) => Ok(strings(v@)),
        Err(e) => Err(e@),
    }
}

/// The remote calendars named by the source tokens of an events read, in
/// their order; checked before anything is read from the server.
pub fn requested_sources(source_ids: &[String], account: &str) -> (r: Result<Vec<String>, &'static str>)
    ensures
        remotes_result(r) == requested_from(strings(source_ids@), account@, source_ids@.len() as int),
        r matches Ok(remotes) ==> remotes@.len() == source_ids@.len(),
{
    let ghost tokens = strings(source_ids@);
    let mut remotes: Vec<String> = Vec::new();
    let mut i: usize = 0;
    assert(strings(remotes@) =~= Seq::<Seq<char>>::empty());
    while i < source_ids.len()
        invariant
            i <= source_ids@.len(),
            tokens == strings(source_ids@),
            remotes@.len() == i,
            requested_from(tokens, account@, i as int) == Ok::<Seq<Seq<char>>, Seq<char>>(strings(remotes@)),
        decreases source_ids.len() - i,
    {
        assert(tokens[i as int] == source_ids@[i as int]@);
        match decode_token(source_ids[i].as_str(), account) {
            Ok(remote) => {
                let ghost before = strings(remotes@);
                remotes.push(remote);
                assert(strings(remotes@) =~= before.push(remotes@[i as int]@));
            },
            Err(e) => {
                proof {
                    lemma_requested_err(tokens, account@, i as int + 1, tokens.len() as int);
                }
                return Err(e);
            },
        }
        i += 1;
    }
    Ok(remotes)
}

} // verus!
