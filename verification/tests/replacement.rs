use flashtext2::KeywordProcessor;

#[test]
fn replacement_round_trip() {
    let mut kp = KeywordProcessor::new(true);
    kp.add_keywords_with_clean_word_from_iter(&[("love", "like"), ("Rust", "Java")]);
    let replaced = kp.replace_keywords("I love Rust");
    assert_eq!(replaced, "I like Java");
    assert_eq!(kp.extract_keywords_with_span(&replaced), vec![]);
    assert_eq!(kp.replace_keywords(&replaced), "I like Java");
}

#[test]
fn replacements_of_other_lengths_keep_the_rest_in_place() {
    let mut kp = KeywordProcessor::new(true);
    kp.add_keyword_with_clean_word("a", "alpha");
    kp.add_keyword_with_clean_word("international business machines", "IBM");
    kp.add_keyword_with_clean_word("gone", "");
    assert_eq!(
        kp.replace_keywords("a, international business machines; gone a."),
        "alpha, IBM;  alpha."
    );
}

#[test]
fn text_without_matches_is_returned_unchanged() {
    let mut kp = KeywordProcessor::new(true);
    kp.add_keyword_with_clean_word("rust", "java");
    let text = "nothing to see, Rust aside";
    assert_eq!(kp.replace_keywords(text), text);
}

#[test]
fn replacement_keeps_bytes_outside_the_matches() {
    let mut kp = KeywordProcessor::new(false);
    kp.add_keyword_with_clean_word("straße", "street");
    let replaced = kp.replace_keywords("«Die STRASSE» — naïve ☕");
    assert_eq!(replaced, "«Die street» — naïve ☕");
}

#[test]
fn replacement_at_both_ends_of_the_text() {
    let mut kp = KeywordProcessor::new(true);
    kp.add_keyword_with_clean_word("x", "[x]");
    assert_eq!(kp.replace_keywords("x y x"), "[x] y [x]");
    assert_eq!(kp.replace_keywords("x"), "[x]");
}

#[test]
fn spans_and_gaps_make_up_the_text() {
    let mut kp = KeywordProcessor::new(false);
    kp.add_keywords_from_iter(&["hello", "hello world", "é", "big apple"]);
    let text = "Hello there, é hello world! The Big Apple, the big é";
    let mut rebuilt = String::new();
    let mut prev_end = 0;
    for (_, start, end) in kp.extract_keywords_with_span(text) {
        assert!(prev_end <= start && start < end && end <= text.len());
        rebuilt.push_str(&text[prev_end..start]);
        rebuilt.push_str(&text[start..end]);
        prev_end = end;
    }
    rebuilt.push_str(&text[prev_end..]);
    assert_eq!(rebuilt, text);
    assert_eq!(
        kp.extract_keywords_with_span(text),
        vec![
            ("hello", 0, 5),
            ("é", 13, 15),
            ("hello world", 16, 27),
            ("big apple", 33, 42),
            ("é", 52, 54)
        ]
    );
}
