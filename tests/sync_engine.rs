use aw_sync::access::{AccessMethod, StoreError};
use aw_sync::engine::{get_or_create_sync_bucket, log_buckets, select_buckets, sync_datastores, sync_one, sync_pass, SyncError};
use aw_sync::memstore::MemStore;
use aw_sync::model::{Bucket, Event};

const T0: i64 = 1_600_000_000_000;

fn bucket(id: &str, hostname: &str, end: Option<i64>) -> Bucket {
    Bucket {
        id: id.to_string(),
        bucket_type: "afkstatus".to_string(),
        hostname: hostname.to_string(),
        client: "test".to_string(),
        data: Vec::new(),
        start: None,
        end,
    }
}

fn event(ts: i64, dur: i64, data: &str) -> Event {
    Event { id: None, timestamp: ts, duration: dur, data: data.to_string() }
}

fn store_with(b: &Bucket, events: &[Event]) -> MemStore {
    let mut s = MemStore::new();
    assert!(s.create_bucket(b).is_ok());
    for e in events {
        let copy = Event { id: None, timestamp: e.timestamp, duration: e.duration, data: e.data.clone() };
        assert!(s.heartbeat(&b.id, copy).is_ok());
    }
    s
}

fn count(s: &MemStore, id: &str) -> u64 {
    match s.get_event_count(&id.to_string()) {
        Ok(n) => n,
        Err(_) => panic!("bucket {} missing", id),
    }
}

fn all_events(s: &MemStore, id: &str) -> Vec<Event> {
    match s.get_events(&id.to_string(), None, None, None) {
        Ok(v) => v,
        Err(_) => panic!("bucket {} missing", id),
    }
}

fn allow(ids: &[&str]) -> Vec<String> {
    ids.iter().map(|s| s.to_string()).collect()
}

#[test]
fn pull_copies_three_events_once() {
    let evs = [event(T0, 0, "{\"status\":0}"), event(T0 + 10, 0, "{\"status\":1}"), event(T0 + 20, 0, "{\"status\":2}")];
    let a = store_with(&bucket("afk-A", "A", Some(T0 + 20)), &evs);
    let mut b = MemStore::new();
    assert!(sync_datastores(&a, &mut b, false, Some("A"), &allow(&["afk-A"])).is_ok());
    assert_eq!(count(&b, "afk-A-synced-from-A"), 3);
    let got = all_events(&b, "afk-A-synced-from-A");
    let stamps: Vec<i64> = got.iter().map(|e| e.timestamp).collect();
    assert_eq!(stamps, vec![T0 + 20, T0 + 10, T0]);
    assert!(sync_datastores(&a, &mut b, false, Some("A"), &allow(&["afk-A"])).is_ok());
    let after = count(&b, "afk-A-synced-from-A");
    assert!(after >= 3 && after <= 4);
    assert_ne!(after, 6);
}

#[test]
fn push_mirrors_five_events_without_ids() {
    let mut evs = Vec::new();
    for i in 0..5i64 {
        evs.push(Event { id: Some(100 + i), timestamp: T0 + 1000 * i, duration: 500, data: format!("{{\"app\":\"w{}\"}}", i) });
    }
    let live = store_with(&bucket("window", "dev1", Some(T0 + 4000)), &evs);
    let mut staging = MemStore::new();
    assert!(sync_datastores(&live, &mut staging, true, Some("dev1"), &allow(&["window"])).is_ok());
    assert_eq!(count(&staging, "window"), 5);
    assert!(all_events(&staging, "window").iter().all(|e| e.id.is_none()));
    assert!(staging.get_bucket(&"window-synced-from-dev1".to_string()).is_err());
}

#[test]
fn second_pull_changes_nothing() {
    let evs = [event(T0, 5, "a"), event(T0 + 5, 5, "b")];
    let a = store_with(&bucket("b1", "A", None), &evs);
    let mut b = MemStore::new();
    assert!(sync_datastores(&a, &mut b, false, Some("A"), &allow(&["b1"])).is_ok());
    let first = count(&b, "b1-synced-from-A");
    assert!(sync_datastores(&a, &mut b, false, Some("A"), &allow(&["b1"])).is_ok());
    assert_eq!(count(&b, "b1-synced-from-A"), first);
    assert_eq!(first, 2);
}

#[test]
fn merge_resumes_after_latest_destination_event() {
    let src = store_with(&bucket("x", "A", None), &[event(T0, 0, "old"), event(T0 + 100, 0, "new1"), event(T0 + 200, 0, "new2")]);
    let from = bucket("x", "A", None);
    let to = bucket("x", "A", None);
    let mut dest = store_with(&to, &[event(T0 + 50, 50, "mine")]);
    match sync_one(&src, &mut dest, &from, &to) {
        Ok(delta) => assert_eq!(delta, 2),
        Err(_) => panic!("merge failed"),
    }
    let got = all_events(&dest, "x");
    let data: Vec<String> = got.iter().map(|e| e.data.clone()).collect();
    assert_eq!(data, vec!["new2".to_string(), "new1".to_string(), "mine".to_string()]);
}

#[test]
fn merge_into_missing_bucket_fails() {
    let src = store_with(&bucket("x", "A", None), &[event(T0, 0, "e")]);
    let mut dest = MemStore::new();
    let r = sync_one(&src, &mut dest, &bucket("x", "A", None), &bucket("nope", "A", None));
    assert!(matches!(r, Err(SyncError::Store(StoreError::NoSuchBucket(_)))));
}

#[test]
fn repeated_pulls_keep_one_destination_id() {
    let a = store_with(&bucket("afk", "A", None), &[event(T0, 0, "e")]);
    let mut b = MemStore::new();
    assert!(sync_datastores(&a, &mut b, false, Some("A"), &allow(&["afk"])).is_ok());
    let synced = match b.get_bucket(&"afk-synced-from-A".to_string()) {
        Ok(x) => x,
        Err(_) => panic!("missing destination"),
    };
    let c = store_with(&synced, &[event(T0, 0, "e")]);
    let mut d = MemStore::new();
    assert!(sync_datastores(&c, &mut d, false, Some("C"), &allow(&["afk-synced-from-A"])).is_ok());
    assert!(d.get_bucket(&"afk-synced-from-A".to_string()).is_ok());
    assert!(d.get_bucket(&"afk-synced-from-A-synced-from-A".to_string()).is_err());
}

#[test]
fn buckets_off_the_allow_list_are_untouched() {
    let mut a = store_with(&bucket("keep", "A", None), &[event(T0, 0, "k")]);
    assert!(a.create_bucket(&bucket("skip", "A", None)).is_ok());
    assert!(a.heartbeat(&"skip".to_string(), event(T0, 0, "s")).is_ok());
    let mut b = store_with(&bucket("skip-synced-from-A", "A", None), &[]);
    assert!(sync_datastores(&a, &mut b, false, Some("A"), &allow(&["keep"])).is_ok());
    assert_eq!(count(&b, "skip-synced-from-A"), 0);
    assert_eq!(count(&b, "keep-synced-from-A"), 1);
    let mut empty = MemStore::new();
    assert!(sync_datastores(&a, &mut empty, false, Some("A"), &Vec::new()).is_ok());
    match log_buckets(&empty) {
        Ok(v) => assert!(v.is_empty()),
        Err(_) => panic!("report failed"),
    }
}

#[test]
fn unknown_hostname_takes_source_device_id() {
    let a = store_with(&bucket("afk", "unknown", None), &[event(T0, 0, "e")]);
    let mut b = MemStore::new();
    assert!(sync_datastores(&a, &mut b, false, Some("laptop"), &allow(&["afk"])).is_ok());
    let got = match b.get_bucket(&"afk-synced-from-laptop".to_string()) {
        Ok(x) => x,
        Err(_) => panic!("missing destination"),
    };
    assert_eq!(got.hostname, "laptop");
    assert!(got.data.iter().any(|(k, v)| k == "sync.origin" && v == "laptop"));
    assert!(got.data.iter().all(|(_, v)| v != "unknown"));
}

#[test]
fn unknown_hostname_without_device_id_is_an_error() {
    let a = store_with(&bucket("afk", "unknown", None), &[event(T0, 0, "e")]);
    let mut b = MemStore::new();
    let r = sync_datastores(&a, &mut b, true, None, &allow(&["afk"]));
    assert!(matches!(r, Err(SyncError::MissingDeviceId)));
    assert!(b.get_bucket(&"afk".to_string()).is_err());
}

#[test]
fn selection_orders_by_end() {
    let list = vec![
        bucket("late", "A", Some(T0 + 300)),
        bucket("none", "A", None),
        bucket("early", "A", Some(T0)),
        bucket("mid", "A", Some(T0 + 100)),
        bucket("other", "A", Some(T0 - 5)),
    ];
    let v = match select_buckets(&list, Some("A"), &allow(&["late", "none", "early", "mid"])) {
        Ok(v) => v,
        Err(_) => panic!("selection failed"),
    };
    let ids: Vec<String> = v.iter().map(|b| b.id.clone()).collect();
    assert_eq!(ids, vec!["none", "early", "mid", "late"]);
}

#[test]
fn created_destination_records_origin() {
    let mut from = bucket("editor", "host1", None);
    from.data.push(("sync.origin".to_string(), "host0".to_string()));
    let mut dest = MemStore::new();
    let got = match get_or_create_sync_bucket(&from, &mut dest, false) {
        Ok(b) => b,
        Err(_) => panic!("creation failed"),
    };
    assert_eq!(got.id, "editor-synced-from-host0");
    assert_eq!(got.data, vec![("sync.origin".to_string(), "host1".to_string())]);
    let again = match get_or_create_sync_bucket(&from, &mut dest, false) {
        Ok(b) => b,
        Err(_) => panic!("lookup failed"),
    };
    assert_eq!(again.id, got.id);
}

#[test]
fn report_lists_every_bucket_with_count() {
    let mut s = store_with(&bucket("a", "h", None), &[event(T0, 0, "1"), event(T0 + 1, 0, "2")]);
    assert!(s.create_bucket(&bucket("b", "h", None)).is_ok());
    let mut v = match log_buckets(&s) {
        Ok(v) => v,
        Err(_) => panic!("report failed"),
    };
    v.sort();
    assert_eq!(v, vec![("a".to_string(), 2), ("b".to_string(), 0)]);
}

#[test]
fn pass_pulls_remotes_then_pushes_live() {
    let remote = store_with(&bucket("afk", "unknown", None), &[event(T0, 0, "r1"), event(T0 + 10, 0, "r2")]);
    let mut live = store_with(&bucket("window", "me", None), &[event(T0, 5, "w")]);
    let mut staging = MemStore::new();
    let remotes = vec![("phone".to_string(), remote)];
    let ids = allow(&["afk", "window", "afk-synced-from-phone"]);
    assert!(sync_pass(&mut live, &mut staging, &remotes, "me", &ids).is_ok());
    assert_eq!(count(&live, "afk-synced-from-phone"), 2);
    assert_eq!(count(&staging, "window"), 1);
    assert_eq!(count(&staging, "afk-synced-from-phone"), 2);
    assert!(sync_pass(&mut live, &mut staging, &remotes, "me", &ids).is_ok());
    assert_eq!(count(&live, "afk-synced-from-phone"), 2);
    assert_eq!(count(&staging, "afk-synced-from-phone"), 2);
    assert_eq!(count(&live, "window"), 1);
}
