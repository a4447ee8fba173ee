use word_cache::codec::encode_definitions;
use word_cache::defs::Sense;
use word_cache::defs::StoreError;
use word_cache::store::Store;
use word_cache::store::str_eq;

fn sense(fl: &str, shortdef: &[&str]) -> Sense {
    Sense {
        fl: fl.to_string(),
        shortdef: shortdef.iter().map(|s| s.to_string()).collect(),
    }
}

#[test]
fn new_store_is_empty() {
    let store = Store::new();
    assert_eq!(store.len(), 0);
    assert!(!store.contains("cat"));
    assert!(store.get("cat").is_none());
}

#[test]
fn put_then_get_and_contains() {
    let mut store = Store::new();
    let defs = vec![sense("noun", &["a small domesticated feline"])];
    assert!(store.put("cat".to_string(), defs).is_ok());
    assert!(store.contains("cat"));
    assert!(!store.contains("dog"));
    let got = store.get("cat").expect("cat is cached");
    assert_eq!(got.len(), 1);
    assert_eq!(got[0].fl, "noun");
    assert_eq!(got[0].shortdef, vec!["a small domesticated feline".to_string()]);
}

#[test]
fn duplicate_put_is_a_constraint_violation() {
    let mut store = Store::new();
    assert!(store.put("cat".to_string(), vec![sense("noun", &["a"])]).is_ok());
    let second = store.put("cat".to_string(), vec![sense("noun", &["b"])]);
    assert_eq!(second, Err(StoreError::ConstraintViolation));
    // The first row stands untouched.
    assert_eq!(store.len(), 1);
    assert_eq!(store.get("cat").unwrap()[0].shortdef, vec!["a".to_string()]);
}

#[test]
fn list_all_keeps_insertion_order() {
    let mut store = Store::new();
    assert!(store.put("cat".to_string(), vec![sense("noun", &["a"])]).is_ok());
    assert!(store.put("dog".to_string(), vec![sense("noun", &["b"])]).is_ok());
    let listed = store.list_all();
    assert_eq!(listed.len(), 2);
    assert_eq!(listed[0].word, "cat");
    assert_eq!(listed[1].word, "dog");
}

#[test]
fn restore_entry_accepts_a_persisted_row() {
    let defs = vec![sense("noun", &["a small domesticated feline"])];
    let payload = encode_definitions(&defs);
    let mut store = Store::new();
    assert!(store.restore_entry("cat".to_string(), &payload).is_ok());
    assert_eq!(store.len(), 1);
    assert_eq!(store.get("cat").unwrap()[0].fl, "noun");
}

#[test]
fn restore_entry_refuses_a_malformed_payload() {
    let mut store = Store::new();
    let r = store.restore_entry("cat".to_string(), "not a payload");
    assert_eq!(r, Err(StoreError::MalformedStoredPayload));
    assert_eq!(store.len(), 0);
}

#[test]
fn restore_entry_refuses_a_repeated_word() {
    let payload = encode_definitions(&vec![sense("noun", &["a"])]);
    let mut store = Store::new();
    assert!(store.restore_entry("cat".to_string(), &payload).is_ok());
    let r = store.restore_entry("cat".to_string(), &payload);
    assert_eq!(r, Err(StoreError::ConstraintViolation));
    assert_eq!(store.len(), 1);
}

#[test]
fn str_eq_compares_by_characters() {
    assert!(str_eq("", ""));
    assert!(str_eq("cat", "cat"));
    assert!(!str_eq("cat", "Cat"));
    assert!(!str_eq("cat", "cats"));
    assert!(str_eq("naïve", "naïve"));
}
