use redis::Value;
use terraphim_pipeline::search_result::{parse_redisearch_response, parse_reply_items, RedisearchResult};

fn strings(v: &[&str]) -> Vec<String> {
    v.iter().map(|s| s.to_string()).collect()
}

#[test]
fn fields_by_name() {
    let r = RedisearchResult::from_field_values(&strings(&[
        "id", "article:1", "title", "Life", "url", "http://x", "body", "text", "tags", "a, b ,c",
    ]));
    assert_eq!(r.id, "article:1");
    assert_eq!(r.title, "Life");
    assert_eq!(r.url, "http://x");
    assert_eq!(r.body, "text");
    assert_eq!(r.stub, Some(String::new()));
    assert_eq!(r.description, Some(String::new()));
    assert_eq!(r.tags, Some(strings(&["a", "b", "c"])));
}

#[test]
fn missing_fields_are_empty() {
    let r = RedisearchResult::from_field_values(&strings(&["title", "T", "title", "U", "id"]));
    assert_eq!(r.title, "U");
    assert_eq!(r.id, "");
    assert_eq!(r.tags, Some(strings(&[""])));
}

#[test]
fn reply_items_after_the_count() {
    let hit = Value::Bulk(vec![
        Value::Data(b"id".to_vec()),
        Value::Data(b"7".to_vec()),
        Value::Data(b"body".to_vec()),
        Value::Data(b"hello".to_vec()),
    ]);
    let reply = Value::Bulk(vec![Value::Int(1), Value::Data(b"ignored".to_vec()), hit]);
    let hits = parse_redisearch_response(&reply);
    assert_eq!(hits.len(), 1);
    assert_eq!(hits[0].id, "7");
    assert_eq!(hits[0].body, "hello");
    assert!(parse_redisearch_response(&Value::Nil).is_empty());
}

#[test]
fn reply_items_in_order() {
    let items = vec![
        None,
        Some(strings(&["id", "first"])),
        None,
        Some(strings(&["id", "second"])),
    ];
    let hits = parse_reply_items(&items);
    let ids: Vec<&str> = hits.iter().map(|h| h.id.as_str()).collect();
    assert_eq!(ids, vec!["first", "second"]);
    // the first item is the count and never a hit
    assert!(parse_reply_items(&vec![Some(strings(&["id", "x"]))]).is_empty());
    assert!(parse_reply_items(&vec![]).is_empty());
}

#[test]
fn non_bulk_replies_have_no_hits() {
    assert!(parse_redisearch_response(&Value::Int(3)).is_empty());
    assert!(parse_redisearch_response(&Value::Bulk(vec![])).is_empty());
}
