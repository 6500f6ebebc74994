use omamail::json::Json;
use omamail::providers::jmap::calendar::{
    all_day_times, calendar_account, local_midnight, calendar_days, calendar_list, decode_token, encode_token, event_chunk,
    event_query_arguments, normalize_events, normalize_events_checked, requested_sources, sources_of,
    utc_local, MAX_EVENTS,
};
use omamail::providers::jmap::calendar::{calendar_get, calendar_using, event_get};
use omamail::providers::jmap::method_call;
use serde_json::Value;

fn conv(value: &Value) -> Json {
    match value {
        Value::Null => Json::Null,
        Value::Bool(b) => Json::Bool(*b),
        Value::Number(n) => {
            if let Some(u) = n.as_u64() {
                Json::UInt(u)
            } else if let Some(i) = n.as_i64() {
                Json::NegInt(i)
            } else {
                Json::Float(n.to_string())
            }
        }
        Value::String(s) => Json::Str(s.clone()),
        Value::Array(items) => Json::Array(items.iter().map(conv).collect()),
        Value::Object(map) => Json::Object(map.iter().map(|(k, v)| (k.clone(), conv(v))).collect()),
    }
}

fn back(value: &Json) -> Value {
    match value {
        Json::Null => Value::Null,
        Json::Bool(b) => Value::Bool(*b),
        Json::UInt(u) => Value::from(*u),
        Json::NegInt(i) => Value::from(*i),
        Json::Float(text) => Value::Number(serde_json::from_str(text).unwrap()),
        Json::Str(s) => Value::String(s.clone()),
        Json::Array(items) => Value::Array(items.iter().map(back).collect()),
        Json::Object(fields) => Value::Object(fields.iter().map(|(k, v)| (k.clone(), back(v))).collect()),
    }
}

fn json(text: &str) -> Json {
    conv(&serde_json::from_str(text).unwrap())
}

fn value(text: &str) -> Value {
    serde_json::from_str(text).unwrap()
}

fn list(text: &str) -> Vec<Json> {
    match json(text) {
        Json::Array(items) => items,
        _ => panic!("not an array"),
    }
}

fn size_of(value: &Value) -> usize {
    serde_json::to_vec(value).unwrap().len()
}

const CALENDARS: &str = "urn:ietf:params:jmap:calendars";

#[test]
fn capability_uses_calendar_primary_account() {
    let document = json(&format!(
        r#"{{"capabilities":{{"{c}":{{}}}},"primaryAccounts":{{"{c}":"calendar-account"}},"accounts":{{"calendar-account":{{"accountCapabilities":{{"{c}":{{}}}}}}}}}}"#,
        c = CALENDARS
    ));
    assert_eq!(calendar_account(&document), Ok("calendar-account"));
    assert_eq!(calendar_account(&json("{}")), Err("calendar_not_supported"));
}

#[test]
fn source_tokens_are_versioned_reversible_and_account_scoped() {
    let token = encode_token("jmap:a@example.test", "remote/with:delimiters").unwrap();
    assert_eq!(decode_token(&token, "jmap:a@example.test"), Ok("remote/with:delimiters".into()));
    assert_eq!(decode_token(&token, "jmap:b@example.test"), Err("calendar_source_unknown"));
    assert_eq!(decode_token("not base64", "jmap:a@example.test"), Err("calendar_source_unknown"));
}

#[test]
fn sources_include_only_readable_default_or_subscribed_calendars() {
    let calendars = list(
        r#"[
        {"id":"hidden","name":"Hidden","isDefault":true,"isSubscribed":true,"isVisible":true,"myRights":{"mayReadItems":false}},
        {"id":"shared","name":"Shared","isDefault":false,"isSubscribed":false,"isVisible":true,"myRights":{"mayReadItems":true}},
        {"id":"main","name":"Main\nCalendar","isDefault":true,"isSubscribed":true,"isVisible":true,"myRights":{"mayReadItems":true}}
    ]"#,
    );
    let value = back(&sources_of("jmap:user@example.test", &calendars).unwrap());
    assert_eq!(value["sources"].as_array().unwrap().len(), 1);
    let source = &value["sources"][0];
    assert_eq!(source["accountId"], "jmap:user@example.test");
    assert_eq!(source["kind"], "account");
    assert_eq!(source["name"], "MainCalendar");
    assert_eq!(source["enabled"], true);
    assert_eq!(source["readOnly"], true);
    assert_eq!(decode_token(source["id"].as_str().unwrap(), "jmap:user@example.test"), Ok("main".into()));
}

#[test]
fn query_shape_has_utc_expansion_without_sort_or_calendar_filter() {
    let shape = back(&event_query_arguments("calendar-account", 0, MAX_EVENTS, 0, 1000).unwrap());
    assert_eq!(shape["filter"], value(r#"{"after":"1970-01-01T00:00:00.000","before":"1970-01-01T00:00:01.000"}"#));
    assert!(shape.get("sort").is_none());
    assert!(shape["filter"].get("inCalendar").is_none());
    assert_eq!(utc_local(0), Ok("1970-01-01T00:00:00.000".to_owned()));
    assert_eq!(utc_local(1000), Ok("1970-01-01T00:00:01.000".to_owned()));
}

#[test]
fn normalizes_exact_utc_times_and_assigns_first_selected_source() {
    let a = encode_token("jmap:user@example.test", "a").unwrap();
    let b = encode_token("jmap:user@example.test", "b").unwrap();
    let events = list(
        r#"[{
        "id":"event-1","uid":"uid-1","title":"Meeting","description":"Notes",
        "locations":{"l":{"name":"Room 1"}},
        "participants":{"owner":{"email":"owner@example.test","roles":{"owner":true}},"guest":{"email":"guest@example.test"}},
        "status":"confirmed","calendarIds":{"a":true,"b":true},"showWithoutTime":false,
        "timeZone":"Europe/Berlin","utcStart":"2026-01-02T10:00:00Z","utcEnd":"2026-01-02T11:00:00Z"
    }]"#,
    );
    let value = back(
        &normalize_events(
            "jmap:user@example.test",
            &[b.clone(), a],
            &["b".into(), "a".into()],
            &events,
            0,
            2_000_000_000_000,
        )
        .unwrap(),
    );
    let event = &value["events"][0];
    assert_eq!(event["sourceId"], b);
    assert_eq!(event["start"]["ms"], 1767348000000_i64);
    assert_eq!(event["end"]["ms"], 1767351600000_i64);
    assert_eq!(event["organizer"], "owner@example.test");
    assert_eq!(event["attendees"], value_of_list(&["guest@example.test"]));
    assert_eq!(event["location"], "Room 1");
    assert!(event.get("calendarIds").is_none());
}

fn value_of_list(items: &[&str]) -> Value {
    Value::Array(items.iter().map(|s| Value::String((*s).to_owned())).collect())
}

#[test]
fn event_source_selection_skips_requested_calendars_without_membership() {
    let absent = encode_token("jmap:user@example.test", "absent").unwrap();
    let present = encode_token("jmap:user@example.test", "present").unwrap();
    let events = list(
        r#"[{"id":"event-1","calendarIds":{"present":true},
        "utcStart":"2026-01-02T10:00:00Z","utcEnd":"2026-01-02T11:00:00Z"}]"#,
    );
    let value = back(
        &normalize_events(
            "jmap:user@example.test",
            &[absent, present.clone()],
            &["absent".into(), "present".into()],
            &events,
            0,
            2_000_000_000_000,
        )
        .unwrap(),
    );
    assert_eq!(value["events"][0]["sourceId"], present);
}

#[test]
fn malformed_times_fail_closed_and_cancelled_or_nonoverlapping_are_filtered() {
    let token = encode_token("jmap:user@example.test", "a").unwrap();
    let malformed = list(r#"[{"id":"e","calendarIds":{"a":true},"utcStart":"local","utcEnd":"2026-01-01T01:00:00Z"}]"#);
    assert_eq!(
        normalize_events("jmap:user@example.test", std::slice::from_ref(&token), &["a".into()], &malformed, 0, i64::MAX)
            .map(|v| back(&v)),
        Err("jmap_invalid_response")
    );
    let filtered = list(
        r#"[
        {"id":"c","status":"cancelled","calendarIds":{"a":true},"utcStart":"2026-01-01T00:00:00Z","utcEnd":"2026-01-01T01:00:00Z"},
        {"id":"o","calendarIds":{"a":true},"utcStart":"2025-01-01T00:00:00Z","utcEnd":"2025-01-01T01:00:00Z"}
    ]"#,
    );
    assert_eq!(
        back(&normalize_events("jmap:user@example.test", &[token], &["a".into()], &filtered, 1767225600000, 1767312000000).unwrap()),
        value(r#"{"events":[]}"#)
    );
}

#[test]
fn events_are_ordered_by_start_then_summary() {
    let token = encode_token("jmap:user@example.test", "a").unwrap();
    let events = list(
        r#"[
        {"id":"late","title":"B","calendarIds":{"a":true},"utcStart":"2026-01-02T12:00:00Z","utcEnd":"2026-01-02T13:00:00Z"},
        {"id":"early-b","title":"B","calendarIds":{"a":true},"utcStart":"2026-01-02T10:00:00Z","utcEnd":"2026-01-02T11:00:00Z"},
        {"id":"early-a","title":"A","calendarIds":{"a":true},"utcStart":"2026-01-02T10:00:00Z","utcEnd":"2026-01-02T11:00:00Z"},
        {"id":"untitled","calendarIds":{"a":true},"utcStart":"2026-01-02T09:00:00Z","utcEnd":"2026-01-02T09:30:00Z"}
    ]"#,
    );
    let value = back(&normalize_events("jmap:user@example.test", &[token], &["a".into()], &events, 0, i64::MAX).unwrap());
    let summaries: Vec<&str> = value["events"].as_array().unwrap().iter().map(|e| e["summary"].as_str().unwrap()).collect();
    assert_eq!(summaries, vec!["Untitled event", "A", "B", "B"]);
    assert_eq!(value["events"][1]["uid"], "early-a");
    assert_eq!(value["events"][3]["uid"], "late");
    assert_eq!(value["events"][0]["status"], "");
    assert_eq!(value["events"][0]["meetLink"], "");
}

#[test]
fn role_map_without_owner_is_reported_not_projected() {
    let token = encode_token("jmap:user@example.test", "a").unwrap();
    let events = list(
        r#"[{"id":"e","calendarIds":{"a":true},"utcStart":"2026-01-02T10:00:00Z","utcEnd":"2026-01-02T11:00:00Z",
        "participants":{"p":{"email":"p@example.test","roles":{"attendee":true}}}}]"#,
    );
    assert!(normalize_events_checked("jmap:user@example.test", &[token.clone()], &["a".into()], &events, 0, i64::MAX).is_none());
    let fine = list(
        r#"[{"id":"e","calendarIds":{"a":true},"utcStart":"2026-01-02T10:00:00Z","utcEnd":"2026-01-02T11:00:00Z",
        "participants":{"p":{"email":"p@example.test","roles":{"owner":false}}}}]"#,
    );
    let shown = back(&normalize_events_checked("jmap:user@example.test", &[token], &["a".into()], &fine, 0, i64::MAX).unwrap().unwrap());
    assert_eq!(shown["events"][0]["organizer"], "");
    assert_eq!(shown["events"][0]["attendees"], value_of_list(&["p@example.test"]));
    let token = encode_token("jmap:user@example.test", "a").unwrap();
    let elsewhere = list(
        r#"[{"id":"e","calendarIds":{"b":true},"utcStart":"2026-01-02T10:00:00Z","utcEnd":"2026-01-02T11:00:00Z",
        "participants":{"p":{"email":"p@example.test","roles":{"attendee":true}}}}]"#,
    );
    let unread = normalize_events_checked("jmap:user@example.test", &[token], &["a".into()], &elsewhere, 0, i64::MAX);
    assert_eq!(unread.map(|answer| answer.map(|v| back(&v))), Some(Ok(value(r#"{"events":[]}"#))));
}

#[test]
fn calendar_durations_are_whole_days() {
    assert_eq!(calendar_days("P1D"), Ok(1));
    assert_eq!(calendar_days("P366000D"), Ok(366000));
    assert_eq!(calendar_days("P0D"), Err("jmap_invalid_response"));
    assert_eq!(calendar_days("PT1H"), Err("jmap_invalid_response"));
    assert_eq!(calendar_days("P1234567D"), Err("jmap_invalid_response"));
}

#[test]
fn requested_tokens_decode_in_order_and_fail_on_a_foreign_one() {
    let a = encode_token("jmap:user@example.test", "a").unwrap();
    let b = encode_token("jmap:user@example.test", "b").unwrap();
    let foreign = encode_token("jmap:other@example.test", "c").unwrap();
    assert_eq!(requested_sources(&[b.clone(), a.clone()], "jmap:user@example.test"), Ok(vec!["b".to_owned(), "a".to_owned()]));
    assert_eq!(requested_sources(&[a, foreign], "jmap:user@example.test"), Err("calendar_source_unknown"));
}

#[test]
fn calendar_lists_refuse_duplicates_and_oversized_answers() {
    let answer = r#"{"list":[{"id":"a"},{"id":"b"}]}"#;
    let arguments = json(answer);
    assert_eq!(calendar_list(&arguments).map(|l| l.len()), Ok(2));
    let duplicate = r#"{"list":[{"id":"a"},{"id":"a"}]}"#;
    assert_eq!(calendar_list(&json(duplicate)).map(|l| l.len()), Err("jmap_invalid_response"));
    assert_eq!(calendar_list(&json(r#"{"list":{}}"#)).map(|l| l.len()), Err("jmap_invalid_response"));
    let big = Json::Object(vec![(
        "list".to_owned(),
        Json::Array(vec![Json::Object(vec![
            ("id".to_owned(), Json::Str("a".to_owned())),
            ("name".to_owned(), Json::Str("x".repeat(33_554_432))),
        ])]),
    )]);
    assert_eq!(calendar_list(&big).map(|l| l.len()), Err("jmap_response_too_large"));
}

#[test]
fn event_chunks_must_return_every_id_once() {
    let chunk = vec!["e1".to_owned(), "e2".to_owned()];
    let complete = r#"{"list":[{"id":"e2"},{"id":"e1"}]}"#;
    let mut used = 0;
    assert_eq!(event_chunk(&chunk, &json(complete), &mut used).map(|l| l.len()), Ok(2));
    assert_eq!(used, size_of(&value(r#"{"id":"e2"}"#)) + size_of(&value(r#"{"id":"e1"}"#)));
    let missing = r#"{"list":[{"id":"e1"}]}"#;
    let mut used = 0;
    assert_eq!(event_chunk(&chunk, &json(missing), &mut used).map(|l| l.len()), Err("jmap_invalid_response"));
    let duplicate = r#"{"list":[{"id":"e1"},{"id":"e1"}]}"#;
    let mut used = 0;
    assert_eq!(event_chunk(&chunk, &json(duplicate), &mut used).map(|l| l.len()), Err("jmap_invalid_response"));
    let unsolicited = r#"{"list":[{"id":"e1"},{"id":"e2"},{"id":"e3"}]}"#;
    let mut used = 0;
    assert_eq!(event_chunk(&chunk, &json(unsolicited), &mut used).map(|l| l.len()), Err("jmap_invalid_response"));
    let mut used = omamail::providers::jmap::MAX_BODY;
    assert_eq!(event_chunk(&chunk, &json(complete), &mut used).map(|l| l.len()), Err("jmap_response_too_large"));
}

#[test]
fn all_day_events_span_local_midnights() {
    let event = json(r#"{"start":"2026-09-23T00:00:00","duration":"P1D"}"#);
    let (start, end) = all_day_times(&event).unwrap();
    assert!(end - start >= 23 * 3_600_000 && end - start <= 25 * 3_600_000);
    let two = json(r#"{"start":"2026-09-23T00:00:00","duration":"P2D"}"#);
    let (start2, end2) = all_day_times(&two).unwrap();
    assert_eq!(start2, start);
    assert!(end2 > end);
    assert_eq!(all_day_times(&json(r#"{"start":"2026-09-23T10:00:00","duration":"P1D"}"#)), Err("jmap_invalid_response"));
    assert_eq!(all_day_times(&json(r#"{"start":"2026-09-23","duration":"P1D"}"#)), Err("jmap_invalid_response"));
}

#[test]
fn requests_name_the_account_and_the_properties_read() {
    assert_eq!(
        back(&method_call("Calendar/get", calendar_get("acc"), "calendar-sources")),
        value(
            r#"[["Calendar/get",{"accountId":"acc","ids":null,
            "properties":["id","name","isDefault","isSubscribed","isVisible","myRights"]},"calendar-sources"]]"#
        )
    );
    assert_eq!(
        back(&calendar_using()),
        value(r#"["urn:ietf:params:jmap:core","urn:ietf:params:jmap:calendars"]"#)
    );
    let get = back(&event_get("acc", &vec!["e1".to_owned(), "e2".to_owned()]));
    assert_eq!(get["ids"], value(r#"["e1","e2"]"#));
    assert_eq!(get["properties"].as_array().unwrap().len(), 16);
    assert_eq!(get["properties"][15], "recurrenceId");
}

#[test]
fn local_midnights_lie_within_a_day_of_utc_midnight() {
    let day = 719_163 + 20_000;
    let utc = 20_000_i64 * 86_400_000;
    let ms = local_midnight(day).unwrap();
    assert!(ms > utc - 86_400_000 && ms < utc + 86_400_000);
    assert_eq!((ms - utc) % 1000, 0);
}
