use secret_reader::store::{
    build_listing, put_record, webhook_displays, webhook_store_for, WebhookStore,
};

fn pairs(ps: Vec<(&str, &str)>) -> Vec<(String, String)> {
    ps.into_iter().map(|(k, v)| (k.to_string(), v.to_string())).collect()
}

#[test]
fn put_record_twice_replaces_everything() {
    let mut records = Vec::new();
    put_record(
        &mut records,
        "ext1".to_string(),
        pairs(vec![("a", "b"), ("old", "x")]),
        "t1".to_string(),
    );
    put_record(
        &mut records,
        "ext1".to_string(),
        pairs(vec![("a", "c")]),
        "t2".to_string(),
    );
    assert_eq!(records.len(), 1);
    assert_eq!(records[0].name, "ext1");
    assert_eq!(records[0].fields, pairs(vec![("a", "c")]));
    assert_eq!(records[0].received_at, "t2");
}

#[test]
fn put_record_keeps_other_names() {
    let mut records = Vec::new();
    put_record(&mut records, "one".to_string(), pairs(vec![("k", "1")]), "t1".to_string());
    put_record(&mut records, "two".to_string(), pairs(vec![("k", "2")]), "t2".to_string());
    put_record(&mut records, "one".to_string(), pairs(vec![("k", "9")]), "t3".to_string());
    assert_eq!(records.len(), 2);
    let one = records.iter().find(|r| r.name == "one").unwrap();
    let two = records.iter().find(|r| r.name == "two").unwrap();
    assert_eq!(one.fields, pairs(vec![("k", "9")]));
    assert_eq!(one.received_at, "t3");
    assert_eq!(two.fields, pairs(vec![("k", "2")]));
    assert_eq!(two.received_at, "t2");
}

#[test]
fn store_replaces_and_stamps() {
    let store = WebhookStore::new();
    store.put("ext1".to_string(), pairs(vec![("a", "b"), ("old", "x")]));
    store.put("ext1".to_string(), pairs(vec![("a", "c")]));
    let snap = store.snapshot();
    assert_eq!(snap.len(), 1);
    assert_eq!(snap[0].name, "ext1");
    assert_eq!(snap[0].fields, pairs(vec![("a", "c")]));
    assert!(!snap[0].received_at.is_empty());
}

#[test]
fn no_store_exists_when_ingestion_is_disabled() {
    assert!(webhook_store_for(false).is_none());
    let enabled = webhook_store_for(true).unwrap();
    assert!(enabled.snapshot().is_empty());
}

#[test]
fn new_store_snapshot_is_empty() {
    let store = WebhookStore::new();
    assert!(store.snapshot().is_empty());
}

#[test]
fn store_accumulates_distinct_names() {
    let store = WebhookStore::new();
    store.put("one".to_string(), pairs(vec![("k", "1")]));
    store.put("two".to_string(), pairs(vec![("k", "2")]));
    assert_eq!(store.snapshot().len(), 2);
}

#[test]
fn webhook_rows_show_sorted_fields_and_stamp() {
    let store = WebhookStore::new();
    store.put("ext1".to_string(), pairs(vec![("z", "26"), ("a", "1")]));
    let rows = webhook_displays(&store.snapshot());
    assert_eq!(rows.len(), 1);
    assert_eq!(rows[0].name, "ext1");
    assert_eq!(rows[0].fields, pairs(vec![("a", "1"), ("z", "26")]));
    assert!(rows[0].received_at.as_ref().is_some_and(|s| !s.is_empty()));
}

#[test]
fn listing_merges_webhook_rows_after_cluster_rows() {
    let store = WebhookStore::new();
    store.put("ext1".to_string(), pairs(vec![("a", "b")]));
    let all = build_listing(Vec::new(), &store.snapshot());
    assert_eq!(all.len(), 1);
    assert_eq!(all[0].name, "ext1");
    assert_eq!(all[0].fields, pairs(vec![("a", "b")]));
    assert!(all[0].received_at.as_ref().is_some_and(|s| !s.is_empty()));
}
