use word_cache::codec::provider_reply_of_call;
use word_cache::defs::LookupOutcome;
use word_cache::defs::ProviderReply;
use word_cache::lookup::apply_provider_reply;
use word_cache::lookup::check_cache;
use word_cache::store::Store;

const CAT_BODY: &str = "[{\"fl\":\"noun\",\"shortdef\":[\"a small domesticated feline\"]}]";

fn lookup(store: &mut Store, word: &str, success: bool, body: &str) -> LookupOutcome {
    match check_cache(store, word) {
        Some(outcome) => outcome,
        None => {
            let reply = provider_reply_of_call(success, body);
            apply_provider_reply(store, word.to_string(), reply)
        }
    }
}

#[test]
fn new_word_is_fetched_and_persisted() {
    let mut store = Store::new();
    let outcome = lookup(&mut store, "cat", true, CAT_BODY);
    match outcome {
        LookupOutcome::New { word, definitions } => {
            assert_eq!(word, "cat");
            assert_eq!(definitions.len(), 1);
            assert_eq!(definitions[0].fl, "noun");
            assert_eq!(definitions[0].shortdef, vec!["a small domesticated feline".to_string()]);
        }
        _ => panic!("expected a New outcome"),
    }
    let listed = store.list_all();
    assert_eq!(listed.len(), 1);
    assert_eq!(listed[0].word, "cat");
    assert_eq!(listed[0].definition.len(), 1);
    assert_eq!(listed[0].definition[0].fl, "noun");
    assert_eq!(
        listed[0].definition[0].shortdef,
        vec!["a small domesticated feline".to_string()]
    );
}

#[test]
fn unmatched_word_yields_spell_check_and_no_row() {
    let mut store = Store::new();
    let outcome = lookup(&mut store, "xyzzyx", true, "[\"xyz\",\"yz\"]");
    match outcome {
        LookupOutcome::SpellCheck { suggestions } => {
            assert_eq!(suggestions, vec!["xyz".to_string(), "yz".to_string()]);
        }
        _ => panic!("expected a SpellCheck outcome"),
    }
    assert_eq!(store.len(), 0);
    assert!(store.list_all().is_empty());
}

#[test]
fn second_lookup_is_a_cache_hit_without_a_fetch() {
    let mut store = Store::new();
    let first = lookup(&mut store, "cat", true, CAT_BODY);
    assert!(matches!(first, LookupOutcome::New { .. }));
    // The cache check alone must answer the second lookup.
    let hit = check_cache(&store, "cat");
    match hit {
        Some(LookupOutcome::Duplicate { word }) => assert_eq!(word, "cat"),
        _ => panic!("expected a Duplicate outcome from the cache alone"),
    }
    assert_eq!(store.len(), 1);
}

#[test]
fn failed_provider_call_yields_lookup_failed_and_no_row() {
    let mut store = Store::new();
    // A timeout or a non-success status reaches the core as a failed call.
    let outcome = lookup(&mut store, "cat", false, "");
    assert!(matches!(outcome, LookupOutcome::LookupFailed));
    assert_eq!(store.len(), 0);
    // The store keeps serving: a later, successful lookup still works.
    let retry = lookup(&mut store, "cat", true, CAT_BODY);
    assert!(matches!(retry, LookupOutcome::New { .. }));
    assert_eq!(store.len(), 1);
}

#[test]
fn server_error_body_yields_lookup_failed() {
    let mut store = Store::new();
    let outcome = lookup(&mut store, "cat", true, "Internal Server Error");
    assert!(matches!(outcome, LookupOutcome::LookupFailed));
    assert_eq!(store.len(), 0);
}

#[test]
fn race_loser_observes_duplicate_and_one_row_remains() {
    let mut store = Store::new();
    // Two lookups of the same brand-new word both missed the cache and both
    // fetched; their replies are applied one after the other.
    assert!(check_cache(&store, "cat").is_none());
    assert!(check_cache(&store, "cat").is_none());
    let first = apply_provider_reply(
        &mut store,
        "cat".to_string(),
        provider_reply_of_call(true, CAT_BODY),
    );
    let second = apply_provider_reply(
        &mut store,
        "cat".to_string(),
        provider_reply_of_call(true, CAT_BODY),
    );
    assert!(matches!(first, LookupOutcome::New { .. }));
    match second {
        LookupOutcome::Duplicate { word } => assert_eq!(word, "cat"),
        _ => panic!("the race loser must observe Duplicate, not an error"),
    }
    assert_eq!(store.len(), 1);
}

#[test]
fn suggestion_path_leaves_listing_unchanged() {
    let mut store = Store::new();
    let _ = lookup(&mut store, "cat", true, CAT_BODY);
    let before = store.list_all();
    let outcome = lookup(&mut store, "xyzzyx", true, "[\"xyz\",\"yz\"]");
    assert!(matches!(outcome, LookupOutcome::SpellCheck { .. }));
    let after = store.list_all();
    assert_eq!(before.len(), after.len());
    for (b, a) in before.iter().zip(after.iter()) {
        assert_eq!(b.word, a.word);
        assert_eq!(b.definition.len(), a.definition.len());
    }
}

#[test]
fn empty_suggestion_array_means_no_close_matches() {
    let mut store = Store::new();
    let outcome = lookup(&mut store, "qqqq", true, "[]");
    match outcome {
        LookupOutcome::SpellCheck { suggestions } => assert!(suggestions.is_empty()),
        _ => panic!("expected a SpellCheck outcome"),
    }
    assert_eq!(store.len(), 0);
}

#[test]
fn words_are_taken_verbatim_as_distinct_keys() {
    let mut store = Store::new();
    let a = lookup(&mut store, "cat", true, CAT_BODY);
    let b = lookup(&mut store, "Cat", true, CAT_BODY);
    assert!(matches!(a, LookupOutcome::New { .. }));
    assert!(matches!(b, LookupOutcome::New { .. }));
    assert_eq!(store.len(), 2);
}

#[test]
fn failed_reply_enum_value_applies_as_failure() {
    let mut store = Store::new();
    let outcome = apply_provider_reply(&mut store, "cat".to_string(), ProviderReply::Failed);
    assert!(matches!(outcome, LookupOutcome::LookupFailed));
    assert_eq!(store.len(), 0);
}
