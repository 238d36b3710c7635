use store_gc::record::{PathInfo, RecordStore};
use store_gc::retention::{
    cutoff_before, cutoff_now, retention_from, select_roots, Retention, DEFAULT_WINDOW,
    SECONDS_PER_DAY,
};

fn aged(path: &str, time: u64) -> PathInfo {
    PathInfo {
        path: path.to_string(),
        references: Vec::new(),
        registrationTime: time,
        downloadSize: 0,
        url: String::new(),
    }
}

fn given(days: i64) -> Retention {
    Retention { days, rejected: false }
}

fn fallback() -> Retention {
    Retention { days: 90, rejected: true }
}

#[test]
fn retention_defaults_to_ninety_days() {
    assert_eq!(DEFAULT_WINDOW, 90);
    assert_eq!(retention_from(None), given(90));
}

#[test]
fn retention_reads_a_positive_number() {
    assert_eq!(retention_from(Some("30")), given(30));
    assert_eq!(retention_from(Some("1")), given(1));
    assert_eq!(retention_from(Some("+7")), given(7));
    assert_eq!(retention_from(Some("007")), given(7));
    assert_eq!(retention_from(Some("9223372036854775807")), given(i64::MAX));
}

#[test]
fn retention_rejects_negative_five() {
    assert_eq!(retention_from(Some("-5")), fallback());
}

#[test]
fn retention_rejects_what_is_not_a_positive_number() {
    for text in ["0", "000", "+0", "-0", "", "+", "-", "abc", "12x", "x12", " 5", "5 ", "1.5", "++1", "٣"] {
        assert_eq!(retention_from(Some(text)), fallback(), "{:?}", text);
    }
}

#[test]
fn retention_rejects_what_does_not_fit() {
    assert_eq!(retention_from(Some("9223372036854775808")), fallback());
    assert_eq!(retention_from(Some("99999999999999999999999999")), fallback());
}

#[test]
fn cutoff_lies_whole_days_before_now() {
    assert_eq!(SECONDS_PER_DAY, 86_400);
    assert_eq!(cutoff_before(1_700_000_000, 90), 1_700_000_000 - 90 * 86_400);
    assert_eq!(cutoff_before(1_700_000_000, 90), 1_692_224_000);
    assert_eq!(cutoff_before(0, 1), -86_400);
    assert_eq!(cutoff_before(100, 0), 100);
}

#[test]
fn cutoff_does_not_wrap() {
    assert_eq!(
        cutoff_before(i64::MIN, i64::MAX),
        (i64::MIN as i128) - (i64::MAX as i128) * 86_400
    );
    assert_eq!(
        cutoff_before(i64::MAX, i64::MIN),
        (i64::MAX as i128) - (i64::MIN as i128) * 86_400
    );
}

#[test]
fn cutoff_now_follows_the_clock() {
    let before = chrono::Utc::now().timestamp() as i128;
    let cutoff = cutoff_now(2);
    let after = chrono::Utc::now().timestamp() as i128;
    assert!(before - 2 * 86_400 <= cutoff);
    assert!(cutoff <= after - 2 * 86_400);
}

#[test]
fn roots_entered_the_store_after_the_cutoff() {
    let listing = vec![aged("old", 99), aged("edge", 100), aged("young", 101), aged("new", 5000)];
    let store = RecordStore::build(&listing);
    assert_eq!(select_roots(&store, 100), vec![2, 3]);
    assert_eq!(select_roots(&store, 99), vec![1, 2, 3]);
    assert_eq!(select_roots(&store, 5000), Vec::<usize>::new());
}

#[test]
fn every_object_is_a_root_for_a_cutoff_before_the_epoch() {
    let listing = vec![aged("zero", 0), aged("late", u64::MAX)];
    let store = RecordStore::build(&listing);
    assert_eq!(select_roots(&store, -1), vec![0, 1]);
    assert_eq!(select_roots(&store, 0), vec![1]);
    assert_eq!(select_roots(&store, u64::MAX as i128), Vec::<usize>::new());
    assert_eq!(select_roots(&store, i128::MIN), vec![0, 1]);
}
