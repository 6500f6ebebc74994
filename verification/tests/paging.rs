use omamail::json::Json;
use omamail::providers::jmap::paging::QueryPager;
use omamail::providers::jmap::Chunks;
use serde_json::Value;

fn conv(value: &Value) -> Json {
    match value {
        Value::Null => Json::Null,
        Value::Bool(b) => Json::Bool(*b),
        Value::Number(n) => {
            if let Some(u) = n.as_u64() {
                Json::UInt(u)
            } else if let Some(i) = n.as_i64() {
                Json::NegInt(i)
            } else {
                Json::Float(n.to_string())
            }
        }
        Value::String(s) => Json::Str(s.clone()),
        Value::Array(items) => Json::Array(items.iter().map(conv).collect()),
        Value::Object(map) => Json::Object(map.iter().map(|(k, v)| (k.clone(), conv(v))).collect()),
    }
}

fn page(position: usize, total: usize, state: &str, ids: &[&str]) -> Json {
    let ids: Vec<String> = ids.iter().map(|id| format!("\"{id}\"")).collect();
    let text = format!(
        r#"{{"position":{position},"total":{total},"queryState":"{state}","ids":[{}]}}"#,
        ids.join(",")
    );
    conv(&serde_json::from_str(&text).unwrap())
}

fn contacts_pager() -> QueryPager {
    QueryPager::new(2000, None, None, "contacts_too_many")
}

#[test]
fn pages_are_read_to_the_reported_total() {
    let mut pager = contacts_pager();
    assert_eq!(pager.next_page(), Ok((0, 2000)));
    assert_eq!(pager.accept(&page(0, 3, "s1", &["a", "b"])), Ok(false));
    assert_eq!(pager.next_page(), Ok((2, 1998)));
    assert_eq!(pager.accept(&page(2, 3, "s1", &["c"])), Ok(true));
    assert_eq!(pager.into_ids(), vec!["a".to_owned(), "b".to_owned(), "c".to_owned()]);
}

#[test]
fn an_empty_query_is_complete_at_once() {
    let mut pager = contacts_pager();
    assert_eq!(pager.accept(&page(0, 0, "s1", &[])), Ok(true));
    assert!(pager.into_ids().is_empty());
}

#[test]
fn inconsistent_or_stalled_pages_fail_closed() {
    let mut stall = contacts_pager();
    assert_eq!(stall.accept(&page(0, 2, "s1", &[])), Err("jmap_invalid_response"));
    let mut duplicate = contacts_pager();
    assert_eq!(duplicate.accept(&page(0, 3, "s1", &["a"])), Ok(false));
    assert_eq!(duplicate.accept(&page(1, 3, "s1", &["a"])), Err("jmap_invalid_response"));
    let mut wrong_position = contacts_pager();
    assert_eq!(wrong_position.accept(&page(1, 3, "s1", &["a"])), Err("jmap_invalid_response"));
    let mut state_change = contacts_pager();
    assert_eq!(state_change.accept(&page(0, 3, "s1", &["a"])), Ok(false));
    assert_eq!(state_change.accept(&page(1, 3, "s2", &["b"])), Err("jmap_invalid_response"));
    let mut total_change = contacts_pager();
    assert_eq!(total_change.accept(&page(0, 3, "s1", &["a"])), Ok(false));
    assert_eq!(total_change.accept(&page(1, 4, "s1", &["b"])), Err("jmap_invalid_response"));
    let mut past_total = contacts_pager();
    assert_eq!(past_total.accept(&page(0, 1, "s1", &["a", "b"])), Err("jmap_invalid_response"));
    let mut bad_id = contacts_pager();
    assert_eq!(bad_id.accept(&page(0, 1, "s1", &["a\u{202e}"])), Err("jmap_invalid_response"));
}

#[test]
fn a_total_past_the_cap_is_too_many() {
    let mut pager = contacts_pager();
    assert_eq!(pager.accept(&page(0, 2001, "s1", &["a"])), Err("contacts_too_many"));
    let mut calendar = QueryPager::new(10000, Some(256), Some(33_554_432), "calendar_too_many");
    assert_eq!(calendar.accept(&page(0, 10001, "s1", &[])), Err("calendar_too_many"));
}

#[test]
fn a_page_larger_than_asked_for_is_too_large() {
    let mut pager = QueryPager::new(1, None, None, "contacts_too_many");
    assert_eq!(pager.accept(&page(0, 1, "s1", &["a", "b"])), Err("jmap_response_too_large"));
    let mut small = QueryPager::new(2, None, None, "contacts_too_many");
    assert_eq!(small.accept(&page(0, 2, "s1", &["a", "b", "c"])), Err("jmap_response_too_large"));
}

#[test]
fn the_page_count_is_capped() {
    let mut pager = QueryPager::new(10000, Some(2), Some(33_554_432), "calendar_too_many");
    assert_eq!(pager.next_page(), Ok((0, 10000)));
    assert_eq!(pager.accept(&page(0, 3, "s1", &["a"])), Ok(false));
    assert_eq!(pager.next_page(), Ok((1, 9999)));
    assert_eq!(pager.accept(&page(1, 3, "s1", &["b"])), Ok(false));
    assert_eq!(pager.next_page(), Err("jmap_response_too_large"));
}

#[test]
fn id_bytes_are_charged_against_the_budget() {
    let mut pager = QueryPager::new(10000, Some(256), Some(7), "calendar_too_many");
    assert_eq!(pager.accept(&page(0, 2, "s1", &["abc"])), Ok(false));
    assert_eq!(pager.accept(&page(1, 2, "s1", &["de"])), Err("jmap_response_too_large"));
    let mut exact = QueryPager::new(10000, Some(256), Some(9), "calendar_too_many");
    assert_eq!(exact.accept(&page(0, 2, "s1", &["abc", "de"])), Ok(true));
}

#[test]
fn chunks_hand_out_every_id_once_in_order() {
    let ids: Vec<String> = ["a", "b", "c", "d", "e"].iter().map(|s| s.to_string()).collect();
    let mut chunks = Chunks::new(ids, 2);
    assert_eq!(chunks.next_chunk(), Some((0, vec!["a".to_owned(), "b".to_owned()])));
    assert_eq!(chunks.next_chunk(), Some((1, vec!["c".to_owned(), "d".to_owned()])));
    assert_eq!(chunks.next_chunk(), Some((2, vec!["e".to_owned()])));
    assert_eq!(chunks.next_chunk(), None);
    let mut none = Chunks::new(Vec::new(), 256);
    assert_eq!(none.next_chunk(), None);
}
