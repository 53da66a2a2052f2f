use flashtext2::KeywordProcessor;

#[test]
fn new_processor_is_empty() {
    let kp = KeywordProcessor::new(true);
    assert_eq!(kp.len(), 0);
    assert!(kp.is_empty());
    let folded = KeywordProcessor::new(false);
    assert_eq!(folded.len(), 0);
    assert!(folded.is_empty());
}

#[test]
fn len_counts_distinct_keywords() {
    let mut kp = KeywordProcessor::new(true);
    kp.add_keyword("hello");
    assert_eq!(kp.len(), 1);
    assert!(!kp.is_empty());
    kp.add_keyword("hello world");
    assert_eq!(kp.len(), 2);
    kp.add_keyword("world");
    assert_eq!(kp.len(), 3);
    kp.add_keyword("hello");
    assert_eq!(kp.len(), 3);
}

#[test]
fn len_counts_keywords_and_not_nodes() {
    let mut kp = KeywordProcessor::new(true);
    kp.add_keyword("one two three four");
    assert_eq!(kp.len(), 1);
    kp.add_keyword("one two");
    assert_eq!(kp.len(), 2);
}

#[test]
fn registering_again_replaces_the_clean_word_and_keeps_the_count() {
    let mut kp = KeywordProcessor::new(true);
    kp.add_keyword_with_clean_word("rust", "Rust");
    assert_eq!(kp.len(), 1);
    assert_eq!(kp.extract_keywords("rust"), vec!["Rust"]);
    kp.add_keyword_with_clean_word("rust", "Java");
    assert_eq!(kp.len(), 1);
    assert_eq!(kp.extract_keywords("rust"), vec!["Java"]);
    assert_eq!(kp.replace_keywords("i love rust"), "i love Java");
}

#[test]
fn case_insensitive_processor_files_cases_together() {
    let mut kp = KeywordProcessor::new(false);
    kp.add_keyword_with_clean_word("Rust", "first");
    kp.add_keyword_with_clean_word("RUST", "second");
    kp.add_keyword_with_clean_word("rust", "third");
    assert_eq!(kp.len(), 1);
    assert_eq!(kp.extract_keywords("rUST"), vec!["third"]);
    let mut exact = KeywordProcessor::new(true);
    exact.add_keyword_with_clean_word("Rust", "first");
    exact.add_keyword_with_clean_word("RUST", "second");
    exact.add_keyword_with_clean_word("rust", "third");
    assert_eq!(exact.len(), 3);
    assert_eq!(exact.extract_keywords("RUST rust Rust"), vec!["second", "third", "first"]);
}

#[test]
fn empty_keyword_is_not_registered() {
    let mut kp = KeywordProcessor::new(true);
    kp.add_keyword("");
    assert_eq!(kp.len(), 0);
    assert!(kp.is_empty());
    kp.add_keyword_with_clean_word("", "nothing");
    assert_eq!(kp.len(), 0);
    assert_eq!(kp.extract_keywords_with_span("some text"), vec![]);
    assert_eq!(kp.replace_keywords("some text"), "some text");
    kp.add_keyword("text");
    kp.add_keyword("");
    assert_eq!(kp.len(), 1);
}

#[test]
fn add_keyword_stands_for_itself() {
    let mut kp = KeywordProcessor::new(true);
    kp.add_keyword("big apple");
    let mut same = KeywordProcessor::new(true);
    same.add_keyword_with_clean_word("big apple", "big apple");
    let text = "the big apple";
    assert_eq!(kp.extract_keywords_with_span(text), vec![("big apple", 4, 13)]);
    assert_eq!(kp.extract_keywords_with_span(text), same.extract_keywords_with_span(text));
}

#[test]
fn bulk_registration_goes_in_order() {
    let mut kp = KeywordProcessor::new(true);
    kp.add_keywords_from_iter(&["a", "b", "a", "c d"]);
    assert_eq!(kp.len(), 3);
    kp.add_keywords_with_clean_word_from_iter(&[("a", "first"), ("e", "E"), ("a", "last")]);
    assert_eq!(kp.len(), 4);
    assert_eq!(kp.extract_keywords("a b c d e"), vec!["last", "b", "c d", "E"]);
    kp.add_keywords_from_iter(&[]);
    kp.add_keywords_with_clean_word_from_iter(&[]);
    assert_eq!(kp.len(), 4);
}

#[test]
fn many_keywords_share_the_trie() {
    let mut kp = KeywordProcessor::new(true);
    let words: Vec<String> = (0..500).map(|i| format!("word{} tail{}", i % 50, i)).collect();
    for w in &words {
        kp.add_keyword(w);
    }
    assert_eq!(kp.len(), 500);
    assert_eq!(kp.extract_keywords_with_span("x word7 tail457 y"), vec![("word7 tail457", 2, 15)]);
    assert_eq!(kp.extract_keywords("word7 tail8"), Vec::<&str>::new());
}
