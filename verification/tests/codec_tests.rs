use word_cache::codec::decode_definitions;
use word_cache::codec::decode_suggestions;
use word_cache::codec::encode_definitions;
use word_cache::codec::encode_suggestions;
use word_cache::codec::interpret_provider_body;
use word_cache::defs::ProviderReply;
use word_cache::defs::Sense;

fn sense(fl: &str, shortdef: &[&str]) -> Sense {
    Sense {
        fl: fl.to_string(),
        shortdef: shortdef.iter().map(|s| s.to_string()).collect(),
    }
}

#[test]
fn encode_one_sense_exact_text() {
    let defs = vec![sense("noun", &["a small domesticated feline"])];
    assert_eq!(
        encode_definitions(&defs),
        "[{\"fl\":\"noun\",\"shortdef\":[\"a small domesticated feline\"]}]"
    );
}

#[test]
fn encode_two_senses_exact_text() {
    let defs = vec![sense("noun", &["a", "b"]), sense("verb", &[])];
    assert_eq!(
        encode_definitions(&defs),
        "[{\"fl\":\"noun\",\"shortdef\":[\"a\",\"b\"]},{\"fl\":\"verb\",\"shortdef\":[]}]"
    );
}

#[test]
fn encode_escapes_exact_text() {
    let defs = vec![sense("no\"un\\", &["tab\there", "line\nbreak", "bell\u{07}"])];
    assert_eq!(
        encode_definitions(&defs),
        "[{\"fl\":\"no\\\"un\\\\\",\"shortdef\":[\"tab\\there\",\"line\\nbreak\",\"bell\\u0007\"]}]"
    );
}

#[test]
fn definitions_round_trip() {
    let defs = vec![
        sense("noun", &["a small domesticated feline", "quote \" and back\\slash"]),
        sense("verb", &["new\nline", "tab\t", "cr\r", "bell\u{07}", "unit\u{1f}"]),
        sense("", &[]),
    ];
    let text = encode_definitions(&defs);
    let back = decode_definitions(&text).expect("canonical text must decode");
    assert_eq!(back.len(), defs.len());
    for (b, d) in back.iter().zip(defs.iter()) {
        assert_eq!(b.fl, d.fl);
        assert_eq!(b.shortdef, d.shortdef);
    }
}

#[test]
fn suggestions_round_trip() {
    let words = vec!["xyz".to_string(), "yz".to_string(), "with space".to_string()];
    let text = encode_suggestions(&words);
    assert_eq!(text, "[\"xyz\",\"yz\",\"with space\"]");
    let back = decode_suggestions(&text).expect("canonical text must decode");
    assert_eq!(back, words);
}

#[test]
fn empty_array_round_trip() {
    assert_eq!(encode_definitions(&Vec::new()), "[]");
    assert_eq!(encode_suggestions(&Vec::new()), "[]");
    assert!(decode_definitions("[]").expect("must decode").is_empty());
    assert!(decode_suggestions("[]").expect("must decode").is_empty());
}

#[test]
fn malformed_payloads_are_refused() {
    for bad in [
        "",
        "not json",
        "{",
        "[",
        "[{\"fl\":\"noun\"}]",
        "[{\"fl\":\"noun\",\"shortdef\":[\"a\"]}",
        "[{\"shortdef\":[\"a\"],\"fl\":\"noun\"}]",
        "[\"unterminated]",
        "[\"bad\\escape\"]",
        "[[\"nested\"]]",
        "[1,2]",
    ] {
        assert!(decode_definitions(bad).is_none(), "accepted {:?}", bad);
    }
    assert!(decode_suggestions("\"alone\"").is_none());
    assert!(decode_suggestions("[\"a\",]").is_none());
}

#[test]
fn non_canonical_text_is_refused() {
    // The stored payload grammar is canonical: compact, shortest escapes.
    assert!(decode_suggestions("[ \"a\" ]").is_none());
    assert!(decode_suggestions("[\"a\" ,\"b\"]").is_none());
    assert!(decode_suggestions("[\"tab\\u0009\"]").is_none(), "\\t is canonical for a tab");
    assert!(decode_definitions("[{\"fl\":\"n\",\"shortdef\":[]} ]").is_none());
}

#[test]
fn provider_body_sense_shape_wins() {
    let reply = interpret_provider_body("[{\"fl\":\"noun\",\"shortdef\":[\"a\"]}]");
    match reply {
        ProviderReply::Found(defs) => {
            assert_eq!(defs.len(), 1);
            assert_eq!(defs[0].fl, "noun");
            assert_eq!(defs[0].shortdef, vec!["a".to_string()]);
        }
        _ => panic!("expected Found"),
    }
}

#[test]
fn provider_body_string_shape_is_suggestions() {
    let reply = interpret_provider_body("[\"xyz\",\"yz\"]");
    match reply {
        ProviderReply::NotFound(words) => {
            assert_eq!(words, vec!["xyz".to_string(), "yz".to_string()]);
        }
        _ => panic!("expected NotFound"),
    }
}

#[test]
fn provider_body_empty_array_is_empty_suggestions() {
    match interpret_provider_body("[]") {
        ProviderReply::NotFound(words) => assert!(words.is_empty()),
        _ => panic!("expected NotFound"),
    }
}

#[test]
fn provider_body_neither_shape_is_a_failure() {
    for bad in ["", "Internal Server Error", "{\"error\":\"oops\"}", "[{}]"] {
        assert!(
            matches!(interpret_provider_body(bad), ProviderReply::Failed),
            "accepted {:?}",
            bad
        );
    }
}
