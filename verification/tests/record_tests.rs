use store_gc::record::{PathInfo, RecordStore};

fn record(path: &str, references: &[&str], time: u64, size: u64, url: &str) -> PathInfo {
    PathInfo {
        path: path.to_string(),
        references: references.iter().map(|r| r.to_string()).collect(),
        registrationTime: time,
        downloadSize: size,
        url: url.to_string(),
    }
}

#[test]
fn build_numbers_objects_in_listing_order() {
    let listing = vec![
        record("/nix/store/bbb-b", &[], 10, 100, "nar/b"),
        record("/nix/store/aaa-a", &["/nix/store/bbb-b"], 20, 200, "nar/a"),
    ];
    let store = RecordStore::build(&listing);
    assert_eq!(store.len(), 2);
    assert_eq!(store.listed_count(), 2);
    assert_eq!(store.dropped_count(), 0);
    assert_eq!(store.key(0), "bbb-b");
    assert_eq!(store.key(1), "aaa-a");
    assert_eq!(store.registration_time(0), 10);
    assert_eq!(store.registration_time(1), 20);
    assert_eq!(store.references(0), &Vec::<usize>::new());
    assert_eq!(store.references(1), &vec![0]);
}

#[test]
fn build_of_empty_listing_is_empty() {
    let store = RecordStore::build(&Vec::new());
    assert_eq!(store.len(), 0);
    assert_eq!(store.origin_count(), 0);
    assert_eq!(store.missing_count(), 0);
    assert_eq!(store.lookup("A"), None);
}

#[test]
fn build_keeps_the_first_record_of_an_object() {
    let key = "0c0zlfq0fkjwb4zx3w7jkg2bhkmi8a2v";
    let listing = vec![
        record(&format!("/nix/store/{}-hello", key), &[], 1, 10, "nar/first"),
        record("other", &[], 2, 20, "nar/other"),
        record(key, &["other"], 3, 30, "nar/second"),
    ];
    let store = RecordStore::build(&listing);
    assert_eq!(store.len(), 2);
    assert_eq!(store.listed_count(), 3);
    assert_eq!(store.dropped_count(), 1);
    assert_eq!(store.key(0), key);
    assert_eq!(store.registration_time(0), 1);
    assert_eq!(store.references(0), &Vec::<usize>::new());
    assert_eq!(store.origin_count(), 2);
    assert_eq!(store.origin(0), "nar/first");
    assert_eq!(store.origin(1), "nar/other");
}

#[test]
fn build_lets_the_last_record_decide_an_archive_size() {
    let listing = vec![
        record("E", &[], 1, 100, "U"),
        record("G", &[], 1, 7, "V"),
        record("F", &[], 1, 250, "U"),
    ];
    let store = RecordStore::build(&listing);
    assert_eq!(store.origin_count(), 2);
    assert_eq!(store.origin(0), "U");
    assert_eq!(store.origin_size(0), 250);
    assert_eq!(store.origin(1), "V");
    assert_eq!(store.origin_size(1), 7);
    assert_eq!(store.origin_of_object(0), 0);
    assert_eq!(store.origin_of_object(1), 1);
    assert_eq!(store.origin_of_object(2), 0);
}

#[test]
fn lookup_accepts_both_forms_of_an_identifier() {
    let key = "0c0zlfq0fkjwb4zx3w7jkg2bhkmi8a2v";
    let listing = vec![
        record("first", &[], 1, 1, "nar/1"),
        record(&format!("/nix/store/{}-hello-2.12", key), &[], 1, 1, "nar/2"),
    ];
    let store = RecordStore::build(&listing);
    assert_eq!(store.lookup(key), Some(1));
    assert_eq!(store.lookup(&format!("/nix/store/{}-hello-2.12", key)), Some(1));
    assert_eq!(store.lookup(&format!("/nix/store/{}", key)), Some(1));
    assert_eq!(store.lookup("first"), Some(0));
    assert_eq!(store.lookup("/nix/store/first"), Some(0));
    assert_eq!(store.lookup("second"), None);
}

#[test]
fn references_are_resolved_in_either_form() {
    let key = "0c0zlfq0fkjwb4zx3w7jkg2bhkmi8a2v";
    let full = format!("/nix/store/{}-lib", key);
    let listing = vec![
        record("app", &[key, "app", full.as_str(), "gone"], 1, 1, "nar/app"),
        record(&full, &[], 1, 1, "nar/lib"),
    ];
    let store = RecordStore::build(&listing);
    assert_eq!(store.references(0), &vec![1, 0, 1]);
    assert_eq!(store.missing_count(), 1);
    assert_eq!(store.missing_key(0), "gone");
}

#[test]
fn missing_identifiers_are_listed_once() {
    let listing = vec![
        record("A", &["Z", "B", "Y"], 1, 1, "nar/a"),
        record("B", &["/nix/store/Z", "A"], 1, 1, "nar/b"),
    ];
    let store = RecordStore::build(&listing);
    assert_eq!(store.missing_count(), 2);
    let mut missing = vec![store.missing_key(0).clone(), store.missing_key(1).clone()];
    missing.sort();
    assert_eq!(missing, vec!["Y", "Z"]);
    assert_eq!(store.references(0), &vec![1]);
    assert_eq!(store.references(1), &vec![0]);
}
