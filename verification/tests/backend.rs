use omamail::backend::{calendar, contacts};
use omamail::json::Json;
use serde_json::Value;

fn conv(value: &Value) -> Json {
    match value {
        Value::Null => Json::Null,
        Value::Bool(b) => Json::Bool(*b),
        Value::Number(n) => {
            if let Some(u) = n.as_u64() {
                Json::UInt(u)
            } else if let Some(i) = n.as_i64() {
                Json::NegInt(i)
            } else {
                Json::Float(n.to_string())
            }
        }
        Value::String(s) => Json::Str(s.clone()),
        Value::Array(items) => Json::Array(items.iter().map(conv).collect()),
        Value::Object(map) => Json::Object(map.iter().map(|(k, v)| (k.clone(), conv(v))).collect()),
    }
}

fn back(value: &Json) -> Value {
    match value {
        Json::Null => Value::Null,
        Json::Bool(b) => Value::Bool(*b),
        Json::UInt(u) => Value::from(*u),
        Json::NegInt(i) => Value::from(*i),
        Json::Float(text) => Value::Number(serde_json::from_str(text).unwrap()),
        Json::Str(s) => Value::String(s.clone()),
        Json::Array(items) => Value::Array(items.iter().map(back).collect()),
        Json::Object(fields) => Value::Object(fields.iter().map(|(k, v)| (k.clone(), back(v))).collect()),
    }
}

fn json(text: &str) -> Json {
    conv(&serde_json::from_str(text).unwrap())
}

fn value(text: &str) -> Value {
    serde_json::from_str(text).unwrap()
}


fn fields(text: &str) -> Vec<(String, Json)> {
    match json(text) {
        Json::Object(fields) => fields,
        _ => panic!("not an object"),
    }
}

#[test]
fn account_lookup_has_calendar_specific_stable_error() {
    let accounts = json(
        r#"{"accounts":[
        {"id":"jmap:one@example.test","provider":"jmap"},
        {"id":"imap:two@example.test","provider":"imap"}
    ]}"#,
    );
    assert_eq!(calendar::provider_from_accounts(&accounts, "jmap:one@example.test"), Ok("jmap"));
    assert_eq!(calendar::provider_from_accounts(&accounts, "missing"), Err("calendar_account_unknown"));
}

#[test]
fn calendar_params_are_exact_unique_and_bounded() {
    assert_eq!(calendar::allow(&fields(r#"{"accountId":"a"}"#), &["accountId"]), Ok(()));
    assert_eq!(calendar::allow(&fields(r#"{"accountId":"a","extra":true}"#), &["accountId"]), Err("invalid_params"));
    assert_eq!(calendar::account_id(&fields(r#"{"accountId":"a\n"}"#)), Err("invalid_params"));
    assert_eq!(calendar::source_ids(&fields(r#"{"sources":[]}"#)), Err("invalid_params"));
    assert_eq!(calendar::source_ids(&fields(r#"{"sources":["one","one"]}"#)), Err("invalid_params"));
    assert_eq!(calendar::source_ids(&fields(r#"{"sources":["one","two"]}"#)), Ok(vec!["one".into(), "two".into()]));
    assert_eq!(
        calendar::epoch_ms(&fields(&format!(r#"{{"start":{}}}"#, calendar::MAX_SAFE_INTEGER)), "start"),
        Ok(calendar::MAX_SAFE_INTEGER)
    );
    assert_eq!(calendar::epoch_ms(&fields(r#"{"start":9007199254740992}"#), "start"), Err("invalid_params"));
    assert_eq!(calendar::epoch_ms(&fields(r#"{"start":1.5}"#), "start"), Err("invalid_params"));
}

#[test]
fn event_range_validation_happens_before_account_lookup() {
    for params in [
        r#"{"accountId":"missing","sources":["x"],"start":2,"end":2}"#.to_owned(),
        format!(r#"{{"accountId":"missing","sources":["x"],"start":0,"end":{}}}"#, calendar::MAX_RANGE_MS + 1),
        r#"{"accountId":"missing","sources":[],"start":0,"end":1}"#.to_owned(),
        r#"{"accountId":"missing","sources":["x"],"start":0,"end":1,"extra":true}"#.to_owned(),
    ] {
        assert_eq!(calendar::calendar_call("calendar.events", &json(&params)).err(), Some("invalid_params"));
    }
}

#[test]
fn calendar_calls_dispatch_on_the_method() {
    assert_eq!(calendar::calendar_call("calendar.sources", &json("[]")).err(), Some("invalid_params"));
    assert_eq!(calendar::calendar_call("calendar.unknown", &json("{}")).err(), Some("unknown_method"));
    match calendar::calendar_call("calendar.events", &json(r#"{"accountId":"a","sources":["x"],"start":0,"end":31622400000}"#)) {
        Ok(calendar::CalendarCall::Events { account, sources, start, end }) => {
            assert_eq!(account, "a");
            assert_eq!(sources, vec!["x".to_owned()]);
            assert_eq!((start, end), (0, 31_622_400_000));
        }
        _ => panic!("a full 366-day range is accepted"),
    }
    let call = calendar::calendar_call("calendar.sources", &json(r#"{"accountId":"a"}"#)).unwrap();
    assert_eq!(back(&calendar::local_answer(&call, "imap").unwrap()), value(r#"{"sources":[]}"#));
    assert!(calendar::local_answer(&call, "jmap").is_none());
    assert_eq!(
        calendar::remote_answer(&call, Err("calendar_not_supported")).map(|v| back(&v)),
        Ok(value(r#"{"sources":[]}"#))
    );
    assert_eq!(calendar::remote_answer(&call, Err("jmap_timeout")).map(|v| back(&v)), Err("jmap_timeout"));
}

#[test]
fn contact_parameters_refuse_controls_oversize_and_unknown_fields_before_lookup() {
    for forbidden in [
        r#"{"accountId": ""}"#,
        r#"{"accountId": "a@example.test\nInjected"}"#,
        "{\"accountId\": \"\u{202e}bad\"}",
        r#"{"accountId": 7}"#,
        r#"{}"#,
    ] {
        assert_eq!(contacts::account_id(&fields(forbidden)), Err("invalid_params"));
    }
    assert_eq!(
        contacts::account_id(&fields(r#"{"accountId": "jmap:one@example.test"}"#)),
        Ok("jmap:one@example.test")
    );
    let params = fields(r#"{"accountId": "a", "source": "book", "query": "\u0000"}"#);
    assert_eq!(contacts::text(&params, "source", contacts::MAX_SOURCE), Ok(Some("book")));
    assert_eq!(contacts::text(&params, "query", contacts::MAX_QUERY), Err("invalid_params"));
    assert_eq!(
        contacts::number(&fields(r#"{"limit": 201}"#), "limit", contacts::DEFAULT_LIMIT, contacts::MAX_LIMIT),
        Err("invalid_params")
    );
    assert_eq!(
        contacts::number(&fields(r#"{"limit": 0}"#), "limit", contacts::DEFAULT_LIMIT, contacts::MAX_LIMIT),
        Ok(0)
    );
    assert_eq!(
        contacts::number(&fields(r#"{"limit": 200}"#), "limit", contacts::DEFAULT_LIMIT, contacts::MAX_LIMIT),
        Ok(200)
    );
    assert_eq!(
        contacts::allow(&fields(r#"{"accountId": "a", "extra": true}"#), &["accountId"]),
        Err("invalid_params")
    );
}

#[test]
fn provider_selection_requires_an_exact_registry_entry() {
    let accounts = json(
        r#"{"accounts":[
        {"id":"jmap:one@example.test","provider":"jmap"},
        {"id":"imap:two@example.test","provider":"imap"}
    ]}"#,
    );
    assert_eq!(contacts::provider_from_accounts(&accounts, "jmap:one@example.test"), Ok("jmap"));
    assert_eq!(
        contacts::provider_from_accounts(&accounts, "jmap:other@example.test"),
        Err("contacts_account_unknown")
    );
    assert_eq!(
        contacts::provider_from_accounts(&json(r#"{"accounts":[{"id":"broken"}]}"#), "broken"),
        Err("accounts_invalid")
    );
}

#[test]
fn contact_calls_are_checked_before_any_lookup() {
    assert!(matches!(contacts::contacts_call("contacts.suggest", &json("{}")), Ok(contacts::ContactsCall::LocalSuggest)));
    assert!(matches!(
        contacts::contacts_call("contacts.suggest", &json(r#"{"accountId":"a"}"#)),
        Ok(contacts::ContactsCall::Suggest { .. })
    ));
    assert_eq!(contacts::contacts_call("contacts.suggest", &json(r#"{"accountId":""}"#)).err(), Some("invalid_params"));
    assert_eq!(contacts::contacts_call("contacts.nope", &json("{}")).err(), Some("unknown_method"));
    assert_eq!(contacts::contacts_call("contacts.list", &json("null")).err(), Some("invalid_params"));
    match contacts::contacts_call("contacts.list", &json(r#"{"accountId":"a","source":"book"}"#)) {
        Ok(contacts::ContactsCall::List { account, source, query, limit, position }) => {
            assert_eq!((account.as_str(), source.as_str(), query.as_str()), ("a", "book", ""));
            assert_eq!((limit, position), (50, 0));
        }
        _ => panic!("a list call with defaults"),
    }
    assert_eq!(contacts::contacts_call("contacts.detail", &json(r#"{"accountId":"a"}"#)).err(), Some("invalid_params"));
}

#[test]
fn contact_answers_around_the_provider() {
    let list = contacts::contacts_call("contacts.list", &json(r#"{"accountId":"a","source":"book","limit":0,"position":1}"#)).unwrap();
    assert_eq!(
        contacts::local_answer(&list, "imap").unwrap().map(|v| back(&v)),
        Ok(value(r#"{"contacts":[],"total":0,"position":0}"#))
    );
    assert!(contacts::local_answer(&list, "jmap").is_none());
    assert_eq!(
        contacts::remote_answer(&list, Err("contacts_not_supported")).map(|v| back(&v)),
        Ok(value(r#"{"contacts":[],"total":0,"position":0}"#))
    );
    let detail = contacts::contacts_call("contacts.detail", &json(r#"{"accountId":"a","id":"x"}"#)).unwrap();
    assert_eq!(contacts::local_answer(&detail, "imap").unwrap().map(|v| back(&v)), Err("contacts_not_supported"));
    assert_eq!(contacts::remote_answer(&detail, Err("contacts_not_supported")).map(|v| back(&v)), Err("contacts_not_supported"));
    assert!(matches!(contacts::suggestion("imap", None), contacts::Suggestion::Local));
    assert!(matches!(contacts::suggestion("jmap", Some(Err("contacts_not_supported"))), contacts::Suggestion::Local));
    assert!(matches!(contacts::suggestion("jmap", Some(Err("jmap_timeout"))), contacts::Suggestion::Fail("jmap_timeout")));
    assert!(matches!(contacts::suggestion("jmap", Some(Ok(json("[]")))), contacts::Suggestion::Merge(_)));
}
