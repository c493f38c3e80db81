use aw_sync::ident::{contains_str, destination_id, find_remotes_nonlocal};
use aw_sync::model::{data_insert, data_lookup, Bucket};

fn bucket(id: &str, hostname: &str) -> Bucket {
    Bucket {
        id: id.to_string(),
        bucket_type: "t".to_string(),
        hostname: hostname.to_string(),
        client: "c".to_string(),
        data: Vec::new(),
        start: None,
        end: None,
    }
}

#[test]
fn push_keeps_id() {
    assert_eq!(destination_id(&bucket("window", "h"), true), "window");
}

#[test]
fn pull_appends_origin() {
    assert_eq!(destination_id(&bucket("window", "h"), false), "window-synced-from-h");
}

#[test]
fn pull_replaces_existing_suffix() {
    let mut b = bucket("window-synced-from-h-synced-from-k", "z");
    b.data.push(("sync.origin".to_string(), "k".to_string()));
    assert_eq!(destination_id(&b, false), "window-synced-from-k");
}

#[test]
fn substring_search() {
    assert!(contains_str("/sync/dev-42/store.db", "dev-42"));
    assert!(!contains_str("/sync/dev-4/store.db", "dev-42"));
    assert!(contains_str("abc", ""));
}

#[test]
fn remotes_exclude_local_device() {
    let paths = vec![
        "/sync/laptop/a.db".to_string(),
        "/sync/desktop/b.db".to_string(),
        "/sync/phone/c.db".to_string(),
    ];
    assert_eq!(find_remotes_nonlocal(&paths, "desktop"), vec!["/sync/laptop/a.db", "/sync/phone/c.db"]);
    assert!(find_remotes_nonlocal(&Vec::new(), "x").is_empty());
}

#[test]
fn data_map_binding() {
    let d = vec![("a".to_string(), "1".to_string()), ("b".to_string(), "2".to_string())];
    let key = "b".to_string();
    let e = data_insert(&d, &key, &"3".to_string());
    assert_eq!(data_lookup(&e, &key), Some("3".to_string()));
    assert_eq!(e.len(), 2);
    let f = data_insert(&d, &"c".to_string(), &"4".to_string());
    assert_eq!(f.len(), 3);
    assert_eq!(data_lookup(&d, &"z".to_string()), None);
}
