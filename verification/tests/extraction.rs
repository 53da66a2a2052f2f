use flashtext2::KeywordProcessor;

fn processor(case_sensitive: bool, words: &[&str]) -> KeywordProcessor {
    let mut kp = KeywordProcessor::new(case_sensitive);
    kp.add_keywords_from_iter(words);
    kp
}

#[test]
fn longest_keyword_wins() {
    let kp = processor(true, &["hello", "hello world"]);
    assert_eq!(kp.extract_keywords_with_span("hello world"), vec![("hello world", 0, 11)]);
    assert_eq!(kp.extract_keywords("hello world"), vec!["hello world"]);
}

#[test]
fn matches_do_not_overlap_or_nest() {
    let kp = processor(true, &["hello", "world", "hello world"]);
    assert_eq!(
        kp.extract_keywords_with_span("hello hello world"),
        vec![("hello", 0, 5), ("hello world", 6, 17)]
    );
}

#[test]
fn shorter_keyword_is_kept_when_the_longer_one_breaks_off() {
    let kp = processor(true, &["hello", "hello world"]);
    assert_eq!(kp.extract_keywords_with_span("hello there"), vec![("hello", 0, 5)]);
}

#[test]
fn keywords_inside_a_longer_match_are_not_reported() {
    let kp = processor(true, &["new york city", "york", "city"]);
    assert_eq!(
        kp.extract_keywords_with_span("in new york city now"),
        vec![("new york city", 3, 16)]
    );
}

#[test]
fn a_dead_end_restarts_one_token_later() {
    let kp = processor(true, &["a b c", "b"]);
    assert_eq!(kp.extract_keywords_with_span("a b d"), vec![("b", 2, 3)]);
}

#[test]
fn the_scan_goes_on_at_the_token_that_ended_the_walk() {
    let kp = processor(true, &["a", "a b c", "b"]);
    assert_eq!(kp.extract_keywords_with_span("a b d"), vec![("a", 0, 1)]);
    assert_eq!(kp.extract_keywords_with_span("a b d b"), vec![("a", 0, 1), ("b", 6, 7)]);
}

#[test]
fn a_walk_that_runs_out_of_tokens_ends_the_scan() {
    let kp = processor(true, &["a b c", "b"]);
    assert_eq!(kp.extract_keywords_with_span("a b"), vec![]);
    assert_eq!(kp.extract_keywords_with_span("x b"), vec![("b", 2, 3)]);
}

#[test]
fn match_at_the_end_of_the_text_is_reported() {
    let kp = processor(true, &["rust"]);
    assert_eq!(kp.extract_keywords_with_span("i love rust"), vec![("rust", 7, 11)]);
}

#[test]
fn only_whole_tokens_match() {
    let kp = processor(true, &["rust"]);
    assert_eq!(kp.extract_keywords_with_span("rusty trust rust!"), vec![("rust", 12, 16)]);
}

#[test]
fn offsets_count_bytes() {
    let kp = processor(true, &["rust", "café"]);
    assert_eq!(
        kp.extract_keywords_with_span("é rust, café"),
        vec![("rust", 3, 7), ("café", 9, 14)]
    );
}

#[test]
fn keywords_with_punctuation_and_spaces() {
    let kp = processor(true, &["c++", "don't stop"]);
    assert_eq!(
        kp.extract_keywords_with_span("i write c++, don't stop me"),
        vec![("c++", 8, 11), ("don't stop", 13, 23)]
    );
}

#[test]
fn case_sensitive_processor_tells_cases_apart() {
    let kp = processor(true, &["Rust"]);
    assert_eq!(kp.extract_keywords("i love RUST and Rust"), vec!["Rust"]);
    assert_eq!(kp.extract_keywords_with_span("i love RUST and Rust"), vec![("Rust", 16, 20)]);
}

#[test]
fn case_insensitive_match_reports_the_registered_text() {
    let mut kp = KeywordProcessor::new(false);
    kp.add_keyword("Rust");
    assert_eq!(kp.extract_keywords("i love RUST"), vec!["Rust"]);
    assert_eq!(kp.extract_keywords_with_span("i love RUST"), vec![("Rust", 7, 11)]);
    assert_eq!(kp.extract_keywords("rust rUsT"), vec!["Rust", "Rust"]);
}

#[test]
fn case_insensitive_match_folds_beyond_ascii() {
    let mut kp = KeywordProcessor::new(false);
    kp.add_keyword("Maße");
    kp.add_keyword_with_clean_word("ÉCOLE", "school");
    assert_eq!(kp.extract_keywords("die MASSE"), vec!["Maße"]);
    assert_eq!(kp.extract_keywords_with_span("une école"), vec![("school", 4, 10)]);
    let exact = processor(true, &["Maße"]);
    assert_eq!(exact.extract_keywords("die MASSE"), Vec::<&str>::new());
}

#[test]
fn empty_text_or_empty_vocabulary_yield_nothing() {
    let empty = KeywordProcessor::new(true);
    assert_eq!(empty.extract_keywords_with_span("hello world"), vec![]);
    assert_eq!(empty.extract_keywords("hello world"), Vec::<&str>::new());
    assert_eq!(empty.replace_keywords("hello world"), "hello world");
    let kp = processor(true, &["hello"]);
    assert_eq!(kp.extract_keywords_with_span(""), vec![]);
    assert_eq!(kp.extract_keywords(""), Vec::<&str>::new());
    assert_eq!(kp.replace_keywords(""), "");
    let folded = KeywordProcessor::new(false);
    assert_eq!(folded.extract_keywords("hello world"), Vec::<&str>::new());
    assert_eq!(folded.replace_keywords("Hello World"), "Hello World");
}

#[test]
fn extraction_leaves_the_processor_as_it_was() {
    let kp = processor(true, &["hello", "world"]);
    let first = kp.extract_keywords_with_span("hello world");
    let second = kp.extract_keywords_with_span("hello world");
    assert_eq!(first, vec![("hello", 0, 5), ("world", 6, 11)]);
    assert_eq!(first, second);
    assert_eq!(kp.len(), 2);
}

#[test]
fn tokens_are_cut_at_word_boundaries() {
    let kp = processor(true, &["a  b", "x.y", "it's", "3.14"]);
    assert_eq!(kp.len(), 4);
    // a run of spaces is one token, so one space does not stand for two
    assert_eq!(kp.extract_keywords_with_span("a b"), vec![]);
    assert_eq!(kp.extract_keywords_with_span("a  b"), vec![("a  b", 0, 4)]);
    // a full stop between letters joins them into one token
    assert_eq!(kp.extract_keywords_with_span("x.y x .y"), vec![("x.y", 0, 3)]);
    // an apostrophe inside a word and a point inside a number stay inside
    assert_eq!(kp.extract_keywords_with_span("it's 3.14!"), vec![("it's", 0, 4), ("3.14", 5, 9)]);
    assert_eq!(kp.extract_keywords_with_span("it 's 3 .14"), vec![]);
}

#[test]
fn line_breaks_are_tokens() {
    let kp = processor(true, &["end\r\nstart"]);
    assert_eq!(kp.extract_keywords_with_span("end\r\nstart"), vec![("end\r\nstart", 0, 10)]);
    assert_eq!(kp.extract_keywords_with_span("end\nstart"), vec![]);
}
