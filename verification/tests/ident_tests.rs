use store_gc::ident::{canonical_id, KEY_WIDTH};
use store_gc::intern::Interner;

const KEY: &str = "0c0zlfq0fkjwb4zx3w7jkg2bhkmi8a2v";

#[test]
fn canonical_id_of_full_path_is_the_key() {
    let full = format!("/nix/store/{}-hello-2.12", KEY);
    assert_eq!(canonical_id(&full), KEY);
    assert_eq!(KEY.len(), KEY_WIDTH);
}

#[test]
fn canonical_id_of_key_is_the_key() {
    assert_eq!(canonical_id(KEY), KEY);
}

#[test]
fn canonical_id_keeps_short_identifiers() {
    assert_eq!(canonical_id("A"), "A");
    assert_eq!(canonical_id(""), "");
    assert_eq!(canonical_id("/nix/store/abc"), "abc");
    assert_eq!(canonical_id("/nix/store/"), "");
}

#[test]
fn canonical_id_cuts_after_the_key_width() {
    let long = format!("{}{}", KEY, "0123456789");
    assert_eq!(canonical_id(&long), KEY);
    let exact = format!("/nix/store/{}", KEY);
    assert_eq!(canonical_id(&exact), KEY);
}

#[test]
fn canonical_id_takes_the_root_only_from_the_front() {
    assert_eq!(canonical_id("x/nix/store/abc"), "x/nix/store/abc");
    assert_eq!(canonical_id("/nix/stor/abc"), "/nix/stor/abc");
    assert_eq!(canonical_id("/nix/store"), "/nix/store");
}

#[test]
fn canonical_id_counts_characters_not_bytes() {
    let id = "é".repeat(40);
    assert_eq!(canonical_id(&id), "é".repeat(32));
}

#[test]
fn canonical_id_makes_both_forms_equal() {
    let full = format!("/nix/store/{}-zlib-1.3", KEY);
    let other = format!("/nix/store/{}-zlib-1.3-dev", KEY);
    assert_eq!(canonical_id(&full), canonical_id(&other));
    assert_eq!(canonical_id(&full), canonical_id(KEY));
}

#[test]
fn interner_numbers_strings_in_order_of_entry() {
    let mut names = Interner::new();
    assert_eq!(names.len(), 0);
    assert_eq!(names.intern("b".to_string()), 0);
    assert_eq!(names.intern("a".to_string()), 1);
    assert_eq!(names.intern("b".to_string()), 0);
    assert_eq!(names.len(), 2);
    assert_eq!(names.find("a"), Some(1));
    assert_eq!(names.find("c"), None);
    assert_eq!(names.name(0), "b");
    assert_eq!(names.name(1), "a");
}
