use omamail::json::Json;
use omamail::providers::jmap::charge_json_bytes;
use omamail::providers::jmap::contacts::{
    book_list, card_chunk, card_filter, card_query, choose_source, contact_of, contacts_account, detail_answer, label_of,
    list_page, list_row, list_source, normalize, readable_book, readable_card_source, sort_key, sources_of, suggestion_rows, Session,
    MAX_EMAILS_PER_CARD,
};
use omamail::providers::jmap::contacts::{book_get, card_get, contacts_using};
use serde_json::Value;

fn conv(value: &Value) -> Json {
    match value {
        Value::Null => Json::Null,
        Value::Bool(b) => Json::Bool(*b),
        Value::Number(n) => {
            if let Some(u) = n.as_u64() {
                Json::UInt(u)
            } else if let Some(i) = n.as_i64() {
                Json::NegInt(i)
            } else {
                Json::Float(n.to_string())
            }
        }
        Value::String(s) => Json::Str(s.clone()),
        Value::Array(items) => Json::Array(items.iter().map(conv).collect()),
        Value::Object(map) => Json::Object(map.iter().map(|(k, v)| (k.clone(), conv(v))).collect()),
    }
}

fn back(value: &Json) -> Value {
    match value {
        Json::Null => Value::Null,
        Json::Bool(b) => Value::Bool(*b),
        Json::UInt(u) => Value::from(*u),
        Json::NegInt(i) => Value::from(*i),
        Json::Float(text) => Value::Number(serde_json::from_str(text).unwrap()),
        Json::Str(s) => Value::String(s.clone()),
        Json::Array(items) => Value::Array(items.iter().map(back).collect()),
        Json::Object(fields) => Value::Object(fields.iter().map(|(k, v)| (k.clone(), back(v))).collect()),
    }
}

fn json(text: &str) -> Json {
    conv(&serde_json::from_str(text).unwrap())
}

fn value(text: &str) -> Value {
    serde_json::from_str(text).unwrap()
}

fn list(text: &str) -> Vec<Json> {
    match json(text) {
        Json::Array(items) => items,
        _ => panic!("not an array"),
    }
}

const CONTACTS: &str = "urn:ietf:params:jmap:contacts";

#[test]
fn cumulative_card_bytes_share_one_bounded_budget() {
    let first = value(r#"{"id":"one","name":{"full":"Alice"}}"#);
    let second = value(r#"{"id":"two","name":{"full":"Bob"}}"#);
    let exact = serde_json::to_vec(&first).unwrap().len() + serde_json::to_vec(&second).unwrap().len();
    let mut used = 0;
    assert_eq!(charge_json_bytes(&mut used, &conv(&first), exact), Ok(()));
    assert_eq!(charge_json_bytes(&mut used, &conv(&second), exact), Ok(()));
    assert_eq!(used, exact, "the exact cumulative ceiling is allowed");
    assert_eq!(charge_json_bytes(&mut used, &json(r#"{"id":"three"}"#), exact), Err("jmap_response_too_large"));
    let mut overflow = usize::MAX;
    assert_eq!(charge_json_bytes(&mut overflow, &Json::Null, usize::MAX), Err("jmap_response_too_large"));
}

#[test]
fn contacts_primary_account_is_independent_from_mail() {
    let document = json(&format!(
        r#"{{"capabilities":{{"{c}":{{}}}},"primaryAccounts":{{"{c}":"contacts-account"}},"accounts":{{"contacts-account":{{"accountCapabilities":{{"{c}":{{}}}}}}}}}}"#,
        c = CONTACTS
    ));
    assert_eq!(contacts_account(&document), Ok("contacts-account"));
    let missing = json(r#"{"capabilities": {}, "primaryAccounts": {}, "accounts": {}}"#);
    assert_eq!(contacts_account(&missing), Err("contacts_not_supported"));
}

#[test]
fn rejected_cold_contact_context_never_reaches_credentials_or_network() {
    let mut session = Session::new();
    let account = "jmap:synthetic-unconfigured@example.test";
    assert_eq!(session.active_contact_context(account), Ok(()));
    session.note::<()>(account, &Err("jmap_unauthorized"));
    assert!(matches!(session.active_contact_context(account), Err("jmap_unauthorized")));
    session.note(account, &Ok::<(), &str>(()));
    assert!(matches!(session.active_contact_context(account), Err("jmap_unauthorized")));
    assert_eq!(session.active_contact_context("jmap:other@example.test"), Ok(()));
}

#[test]
fn source_selection_prefers_readable_default_then_subscribed() {
    let books = list(
        r#"[
        {"id":"hidden","isDefault":true,"myRights":{"mayRead":false}},
        {"id":"subscribed","isSubscribed":true,"myRights":{"mayRead":true}},
        {"id":"default","isDefault":true,"myRights":{"mayRead":true}}
    ]"#,
    );
    assert_eq!(choose_source(&books), Ok("default".into()));
    assert_eq!(readable_book(&books, "hidden"), Ok(false));
    assert_eq!(readable_book(&books, "default"), Ok(true));
    assert_eq!(readable_book(&books, "absent"), Ok(false));
}

#[test]
fn subscribed_book_is_chosen_without_a_readable_default() {
    let books = list(
        r#"[
        {"id":"hidden","isDefault":true,"myRights":{"mayRead":false}},
        {"id":"subscribed","isSubscribed":true,"myRights":{"mayRead":true}}
    ]"#,
    );
    assert_eq!(choose_source(&books), Ok("subscribed".into()));
    assert_eq!(choose_source(&list(r#"[{"id":"x","myRights":{"mayRead":true}}]"#)), Err("contacts_no_address_book"));
    assert_eq!(choose_source(&list(r#"[{"isDefault":true,"myRights":{"mayRead":true}}]"#)), Err("jmap_invalid_response"));
}

#[test]
fn sources_report_rights_without_leaking_server_details() {
    let books = list(
        r#"[
        {"id":"hidden","name":"Hidden","isDefault":true,"isSubscribed":true,"myRights":{"mayRead":false,"mayWrite":true}},
        {"id":"b","name":"Address Book","isDefault":true,"isSubscribed":true,"myRights":{"mayRead":true,"mayWrite":true}},
        {"id":"c","name":"Trusted\nSenders","isSubscribed":false,"myRights":{"mayRead":true}}
    ]"#,
    );
    assert_eq!(
        back(&sources_of(&books).unwrap()),
        value(
            r#"{"sources": [
            {"id":"b","name":"Address Book","default":true,"subscribed":true,"readOnly":false},
            {"id":"c","name":"TrustedSenders","default":false,"subscribed":false,"readOnly":true}
        ]}"#
        ),
        "unreadable books are not UI sources; readOnly describes write access only"
    );
}

#[test]
fn list_rows_carry_identity_display_name_and_addresses() {
    let card = json(
        r#"{
        "id":"one",
        "addressBookIds":{"book":true},
        "name":{"components":[{"kind":"given","value":"Jane"},{"kind":"surname","value":"Doe"}]},
        "emails":{"a":{"address":"jane@example.test"},"b":{"address":"j.doe@example.test"}}
    }"#,
    );
    assert_eq!(
        back(&list_row(&card, "book").unwrap()),
        value(r#"{"id":"one","name":"Jane Doe","emails":["jane@example.test","j.doe@example.test"],"source":"book"}"#)
    );
    let ordered = vec![
        list_row(&json(r#"{"id":"b","addressBookIds":{"book":true},"name":{"full":"Zoe"},"emails":{"a":{"address":"z@example.test"}}}"#), "book").unwrap(),
        list_row(&json(r#"{"id":"a","addressBookIds":{"book":true},"name":{"full":"adam"},"emails":{"a":{"address":"a@example.test"}}}"#), "book").unwrap(),
    ];
    let mut keyed: Vec<(Vec<i64>, Value)> = ordered.iter().map(|row| (sort_key(row), back(row))).collect();
    keyed.sort_by(|a, b| a.0.cmp(&b.0));
    let sorted: Vec<Value> = keyed.into_iter().map(|(_, row)| row).collect();
    assert_eq!(sorted[0]["id"], "a", "ordering is name-insensitive");
    assert_eq!(sorted[1]["id"], "b");
}

#[test]
fn detail_projects_names_labels_and_postal_lines() {
    let card = json(
        r#"{
        "id":"one",
        "addressBookIds":{"book":true},
        "name":{"full":"Jane Doe","components":[
            {"kind":"given","value":"Jane"},{"kind":"surname","value":"Doe"}
        ]},
        "emails":{"a":{"address":"jane@example.test","contexts":{"work":true}}},
        "phones":{"a":{"number":"+49-1","label":"mobile"}},
        "addresses":{"a":{"components":[
            {"kind":"street","value":"Example Street 1"},
            {"kind":"locality","value":"Example City"}
        ]}}
    }"#,
    );
    assert_eq!(
        back(&contact_of(&card, "book").unwrap()),
        value(
            r#"{
            "id":"one","source":"book","name":"Jane Doe",
            "emails":[{"value":"jane@example.test","label":"work"}],
            "phones":[{"value":"+49-1","label":"mobile"}],
            "addresses":[{"value":"Example Street 1, Example City","label":""}]
        }"#
        )
    );
    let hostile = json(
        r#"{"id":"one","addressBookIds":{"book":true},
        "name":{"full":"A\u0000B"},"emails":{"a":{"address":"a@example.test"}},
        "phones":{},"addresses":{}}"#,
    );
    assert_eq!(back(&contact_of(&hostile, "book").unwrap())["name"], "AB");
}

#[test]
fn card_projection_never_grants_a_false_or_unreadable_book() {
    let books = list(
        r#"[
        {"id":"hidden","myRights":{"mayRead":false}},
        {"id":"book","myRights":{"mayRead":true}}
    ]"#,
    );
    for membership in [r#"{"hidden":true}"#, r#"{"book":false}"#, r#"{"other":true}"#] {
        let card = json(&format!(r#"{{"id":"private","addressBookIds":{membership},"name":{{"full":"Private"}}}}"#));
        assert_eq!(readable_card_source(&card, &books), Err("contacts_not_found"));
        assert_eq!(list_row(&card, "book").map(|v| back(&v)), Err("jmap_invalid_response"));
        assert_eq!(contact_of(&card, "book").map(|v| back(&v)), Err("contacts_not_found"));
    }
    let mixed = json(r#"{"id":"shared","addressBookIds":{"hidden":true,"book":true}}"#);
    assert_eq!(readable_card_source(&mixed, &books), Ok("book"));
    assert_eq!(back(&contact_of(&mixed, "book").unwrap())["source"], "book");
    assert_eq!(back(&list_row(&mixed, "book").unwrap())["source"], "book");
    for malformed in [r#"{"book":null}"#, r#"{"book":"true"}"#] {
        let card = json(&format!(r#"{{"id":"invalid","addressBookIds":{malformed}}}"#));
        assert_eq!(readable_card_source(&card, &books), Err("jmap_invalid_response"));
        assert_eq!(list_row(&card, "book").map(|v| back(&v)), Err("jmap_invalid_response"));
    }
}

#[test]
fn suggestion_candidates_keep_every_string_address_under_the_cleaned_name() {
    let cards = list(
        r#"[{
        "id":"one",
        "name":{"full":"Alice\nInjected"},
        "emails":{"a":{"address":"Alice@example.com"},"b":{"address":"alice@example.com"},"c":{"address":7}}
    },{
        "id":"two",
        "name":{"components":[{"kind":"given","value":"Jane"},{"kind":"surname","value":"Doe"}]},
        "emails":{"a":{"address":"jane@example.test"}}
    },{"id":"three","name":{"full":"No mail"}}]"#,
    );
    assert_eq!(
        back(&normalize(&cards).unwrap()),
        value(
            r#"[
            {"name":"AliceInjected","email":"Alice@example.com"},
            {"name":"AliceInjected","email":"alice@example.com"},
            {"name":"Jane Doe","email":"jane@example.test"}
        ]"#
        )
    );
}

#[test]
fn suggestion_candidates_refuse_oversized_email_maps() {
    let mut emails = serde_json::Map::new();
    for n in 0..=MAX_EMAILS_PER_CARD {
        let mut entry = serde_json::Map::new();
        entry.insert("address".to_owned(), Value::String(format!("a{n}@example.com")));
        emails.insert(n.to_string(), Value::Object(entry));
    }
    let mut card = serde_json::Map::new();
    card.insert("id".to_owned(), Value::String("one".to_owned()));
    card.insert("emails".to_owned(), Value::Object(emails));
    let cards = vec![conv(&Value::Object(card))];
    assert_eq!(normalize(&cards).map(|v| back(&v)), Err("jmap_response_too_large"));
}

#[test]
fn suggestions_fail_for_a_card_outside_the_source_or_a_missing_card() {
    let inside = list(r#"[{"id":"one","addressBookIds":{"book":true},"name":{"full":"A"},"emails":{"a":{"address":"a@example.test"}}}]"#);
    assert_eq!(
        suggestion_rows(&inside, "book", 0).map(|v| back(&v)),
        Ok(value(r#"[{"name":"A","email":"a@example.test"}]"#))
    );
    assert_eq!(suggestion_rows(&inside, "book", 1).map(|v| back(&v)), Err("jmap_invalid_response"));
    assert_eq!(suggestion_rows(&inside, "other", 0).map(|v| back(&v)), Err("jmap_invalid_response"));
}

#[test]
fn list_pages_are_sorted_cut_and_counted() {
    let cards = list(
        r#"[
        {"id":"b","addressBookIds":{"book":true},"name":{"full":"Zoe"},"emails":{"a":{"address":"z@example.test"}}},
        {"id":"a","addressBookIds":{"book":true},"name":{"full":"adam"},"emails":{"a":{"address":"a@example.test"}}},
        {"id":"c","addressBookIds":{"book":true},"name":{"full":"Bea"}}
    ]"#,
    );
    let page = back(&list_page(&cards, 0, "book", 2, 0).unwrap());
    assert_eq!(page["total"], 3);
    assert_eq!(page["position"], 0);
    let ids: Vec<&str> = page["contacts"].as_array().unwrap().iter().map(|r| r["id"].as_str().unwrap()).collect();
    assert_eq!(ids, vec!["a", "c"]);
    assert_eq!(
        back(&list_page(&cards, 0, "book", 0, 1).unwrap()),
        value(r#"{"contacts":[],"total":3,"position":1}"#)
    );
    let past = back(&list_page(&cards, 0, "book", 50, 9).unwrap());
    assert_eq!(past["position"], 3);
    assert_eq!(past["contacts"], value("[]"));
    assert_eq!(list_page(&cards, 1, "book", 50, 0).map(|v| back(&v)), Err("jmap_invalid_response"));
}

#[test]
fn a_detail_is_shown_only_from_a_readable_book() {
    let books = list(r#"[{"id":"hidden","myRights":{"mayRead":false}},{"id":"book","myRights":{"mayRead":true}}]"#);
    let card = list(r#"[{"id":"contact-2","addressBookIds":{"book":true},"name":{"full":"Bob"},"emails":{"a":{"address":"bob@example.test"}}}]"#);
    let detail = back(&detail_answer(&card, 0, &books).unwrap());
    assert_eq!(detail["contact"]["name"], "Bob");
    assert_eq!(detail["contact"]["source"], "book");
    assert_eq!(detail["contact"]["emails"][0]["value"], "bob@example.test");
    assert_eq!(detail_answer(&card, 1, &books).map(|v| back(&v)), Err("contacts_not_found"));
    assert_eq!(detail_answer(&[], 0, &books).map(|v| back(&v)), Err("contacts_not_found"));
    let hidden = list(r#"[{"id":"contact-1","addressBookIds":{"hidden":true}}]"#);
    assert_eq!(detail_answer(&hidden, 0, &books).map(|v| back(&v)), Err("contacts_not_found"));
}

#[test]
fn book_lists_refuse_duplicate_ids() {
    assert_eq!(book_list(&json(r#"{"list":[{"id":"a"},{"id":"b"}]}"#)).map(|l| l.len()), Ok(2));
    assert_eq!(book_list(&json(r#"{"list":[{"id":"a"},{"id":"a"}]}"#)).map(|l| l.len()), Err("jmap_invalid_response"));
    assert_eq!(book_list(&json(r#"{"list":[{"name":"a"}]}"#)).map(|l| l.len()), Err("jmap_invalid_response"));
}

#[test]
fn card_chunks_count_what_did_not_come_back() {
    let chunk = vec!["c1".to_owned(), "c2".to_owned()];
    let answer = r#"{"list":[{"id":"c2"}]}"#;
    let size = serde_json::to_vec(&value(r#"{"id":"c2"}"#)).unwrap().len();
    let mut used = 0;
    assert_eq!(card_chunk(&chunk, &json(answer), &mut used).map(|(l, m)| (l.len(), m)), Ok((1, 1)));
    assert_eq!(used, size);
    let unsolicited = r#"{"list":[{"id":"c3"}]}"#;
    let mut used = 0;
    assert_eq!(card_chunk(&chunk, &json(unsolicited), &mut used).map(|(l, m)| (l.len(), m)), Err("jmap_invalid_response"));
    let mut used = omamail::providers::jmap::MAX_BODY;
    assert_eq!(card_chunk(&chunk, &json(answer), &mut used).map(|(l, m)| (l.len(), m)), Err("jmap_response_too_large"));
}

#[test]
fn list_filters_add_the_search_text_only_when_given() {
    assert_eq!(back(&card_filter("book", "")), value(r#"{"inAddressBook":"book"}"#));
    assert_eq!(back(&card_filter("book", "ann")), value(r#"{"inAddressBook":"book","text":"ann"}"#));
    let query = back(&card_query("acc", card_filter("book", ""), 3, 7));
    assert_eq!(query, value(r#"{"accountId":"acc","filter":{"inAddressBook":"book"},"position":3,"limit":7,"calculateTotal":true}"#));
}

#[test]
fn labels_prefer_the_own_label_then_the_usual_contexts() {
    assert_eq!(label_of(&json(r#"{"label":"mobile","contexts":{"work":true}}"#)), "mobile");
    assert_eq!(label_of(&json(r#"{"label":"","contexts":{"home":true,"private":true}}"#)), "private");
    assert_eq!(label_of(&json(r#"{"contexts":{"zzz":true}}"#)), "zzz");
    assert_eq!(label_of(&json(r#"{}"#)), "");
}

#[test]
fn a_list_read_needs_a_readable_source() {
    let books = list(r#"[{"id":"hidden","myRights":{"mayRead":false}},{"id":"book","myRights":{"mayRead":true}}]"#);
    assert_eq!(list_source(&books, "book"), Ok(()));
    assert_eq!(list_source(&books, "hidden"), Err("contacts_source_unknown"));
    assert_eq!(list_source(&books, "trusted-senders"), Err("contacts_source_unknown"));
    assert_eq!(list_source(&list(r#"[{"id":""}]"#), "book"), Err("jmap_invalid_response"));
}

#[test]
fn card_reads_ask_for_detail_properties_only_for_a_detail() {
    let ids = vec!["c1".to_owned()];
    assert_eq!(
        back(&card_get("acc", &ids, false)),
        value(r#"{"accountId":"acc","ids":["c1"],"properties":["id","addressBookIds","name","emails"]}"#)
    );
    assert_eq!(
        back(&card_get("acc", &ids, true))["properties"],
        value(r#"["id","addressBookIds","name","emails","phones","addresses"]"#)
    );
    assert_eq!(
        back(&book_get("acc")),
        value(r#"{"accountId":"acc","ids":null,"properties":["id","name","isDefault","isSubscribed","myRights"]}"#)
    );
    assert_eq!(back(&contacts_using()), value(r#"["urn:ietf:params:jmap:core","urn:ietf:params:jmap:contacts"]"#));
}

#[test]
fn cards_expand_emails_and_reuse_contact_validation() {
    let structured = list(
        r#"[{
        "id":"two",
        "name":{"components":[{"kind":"given","value":"Jane"},{"kind":"surname","value":"Doe"}]},
        "emails":{"a":{"address":"jane@example.test"}}
    }]"#,
    );
    assert_eq!(
        back(&normalize(&structured).unwrap()),
        value(r#"[{"name":"Jane Doe","email":"jane@example.test"}]"#),
        "suggestions reuse the same structured-name projection as list and detail"
    );
}

#[test]
fn sanitizes_hostile_names_and_rejects_oversized_email_maps() {
    let cards = list(r#"[{"id":"one","name":{"full":"Alice\nInjected"},"emails":{"a":{"address":"alice@example.com"}}}]"#);
    assert_eq!(back(&normalize(&cards).unwrap()), value(r#"[{"name":"AliceInjected","email":"alice@example.com"}]"#));
    let mut emails = serde_json::Map::new();
    for n in 0..=MAX_EMAILS_PER_CARD {
        let mut entry = serde_json::Map::new();
        entry.insert("address".to_owned(), Value::String(format!("a{n}@example.com")));
        emails.insert(n.to_string(), Value::Object(entry));
    }
    let mut name = serde_json::Map::new();
    name.insert("full".to_owned(), Value::String("Alice".to_owned()));
    let mut card = serde_json::Map::new();
    card.insert("id".to_owned(), Value::String("one".to_owned()));
    card.insert("name".to_owned(), Value::Object(name));
    card.insert("emails".to_owned(), Value::Object(emails));
    assert_eq!(normalize(&[conv(&Value::Object(card))]).map(|v| back(&v)), Err("jmap_response_too_large"));
}

#[test]
fn json_sizes_match_the_compact_serialization() {
    let samples = [
        "null",
        "true",
        "false",
        "0",
        "18446744073709551615",
        "-1",
        "-9223372036854775808",
        "1.5",
        "-0.25",
        "1e300",
        r#""""#,
        r#""quote \" backslash \\ tab \t bell \u0007 nul \u0000 del \u007f""#,
        r#""é ☃ 𝄞""#,
        "[]",
        "{}",
        r#"[1,-2,"x",[null,{"a":[true]}]]"#,
        r#"{"id":"one","name":{"full":"Alice\nInjected"},"n":[1.25,-3]}"#,
    ];
    for text in samples {
        let parsed = value(text);
        let expected = serde_json::to_vec(&parsed).unwrap().len();
        assert_eq!(omamail::json::json_size_of(&conv(&parsed)), Some(expected), "{text}");
    }
    assert_eq!(omamail::text::utf8_len("é☃𝄞a"), Some(10));
}
