use aw_sync::access::{AccessMethod, StoreError};
use aw_sync::memstore::MemStore;
use aw_sync::model::{Bucket, Event};

fn bucket(id: &str) -> Bucket {
    Bucket {
        id: id.to_string(),
        bucket_type: "t".to_string(),
        hostname: "h".to_string(),
        client: "c".to_string(),
        data: Vec::new(),
        start: None,
        end: None,
    }
}

fn ev(ts: i64, data: &str) -> Event {
    Event { id: None, timestamp: ts, duration: 0, data: data.to_string() }
}

#[test]
fn create_twice_is_refused() {
    let mut s = MemStore::new();
    assert!(s.create_bucket(&bucket("b")).is_ok());
    assert!(matches!(s.create_bucket(&bucket("b")), Err(StoreError::BucketAlreadyExists(_))));
}

#[test]
fn missing_bucket_is_reported() {
    let mut s = MemStore::new();
    assert!(matches!(s.get_bucket(&"x".to_string()), Err(StoreError::NoSuchBucket(_))));
    assert!(matches!(s.get_event_count(&"x".to_string()), Err(StoreError::NoSuchBucket(_))));
    assert!(matches!(s.heartbeat(&"x".to_string(), ev(1, "a")), Err(StoreError::NoSuchBucket(_))));
}

#[test]
fn heartbeat_keeps_time_order_and_skips_present_events() {
    let mut s = MemStore::new();
    let id = "b".to_string();
    assert!(s.create_bucket(&bucket("b")).is_ok());
    assert!(s.heartbeat(&id, ev(30, "c")).is_ok());
    assert!(s.heartbeat(&id, ev(10, "a")).is_ok());
    assert!(s.heartbeat(&id, ev(20, "b")).is_ok());
    assert!(s.heartbeat(&id, ev(20, "b")).is_ok());
    assert_eq!(s.get_event_count(&id).ok(), Some(3));
    let v = s.get_events(&id, None, None, None).ok().unwrap_or_default();
    let ts: Vec<i64> = v.iter().map(|e| e.timestamp).collect();
    assert_eq!(ts, vec![30, 20, 10]);
}

#[test]
fn events_window_and_limit() {
    let mut s = MemStore::new();
    let id = "b".to_string();
    assert!(s.create_bucket(&bucket("b")).is_ok());
    for t in [10, 20, 30, 40] {
        assert!(s.heartbeat(&id, ev(t, "x")).is_ok());
    }
    let w = s.get_events(&id, Some(20), Some(40), None).ok().unwrap_or_default();
    assert_eq!(w.iter().map(|e| e.timestamp).collect::<Vec<i64>>(), vec![30, 20]);
    let newest = s.get_events(&id, None, None, Some(1)).ok().unwrap_or_default();
    assert_eq!(newest.iter().map(|e| e.timestamp).collect::<Vec<i64>>(), vec![40]);
    let none = s.get_events(&id, Some(50), None, Some(3)).ok().unwrap_or_default();
    assert!(none.is_empty());
}
