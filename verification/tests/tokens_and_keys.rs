use flashtext2::keys::{token_keys, TokenKey};
use flashtext2::replace::replace_matches;
use flashtext2::{KeywordExtractor, KeywordProcessor};

fn exact<'a>(tokens: &[&'a str]) -> Vec<TokenKey<'a>> {
    tokens.iter().map(|t| TokenKey::Exact(t)).collect()
}

fn hello_processor() -> KeywordProcessor {
    let mut kp = KeywordProcessor::new(true);
    kp.add_key_path(&exact(&["hello"]), "hello");
    kp.add_key_path(&exact(&["world"]), "world");
    kp.add_key_path(&exact(&["hello", " ", "world"]), "hello world");
    kp
}

#[test]
fn exact_key_is_the_token() {
    let key = TokenKey::new(true, "Rust");
    assert_eq!(key.as_str(), "Rust");
    assert!(matches!(key, TokenKey::Exact("Rust")));
}

#[test]
fn folded_key_is_the_case_folding() {
    assert_eq!(TokenKey::new(false, "Rust").as_str(), "rust");
    assert_eq!(TokenKey::new(false, "RUST").as_str(), "rust");
    assert_eq!(TokenKey::new(false, "Maße").as_str(), "masse");
    assert_eq!(TokenKey::new(false, "ÉCOLE").as_str(), "école");
    assert_eq!(TokenKey::new(false, "42 !").as_str(), "42 !");
    assert!(matches!(TokenKey::new(false, "a"), TokenKey::Folded(_)));
}

#[test]
fn token_keys_follow_the_case_policy() {
    let tokens = vec![(0, "Hello"), (5, " "), (6, "WORLD")];
    let exact: Vec<String> =
        token_keys(true, &tokens).iter().map(|k| k.as_str().to_string()).collect();
    assert_eq!(exact, vec!["Hello", " ", "WORLD"]);
    let folded: Vec<String> =
        token_keys(false, &tokens).iter().map(|k| k.as_str().to_string()).collect();
    assert_eq!(folded, vec!["hello", " ", "world"]);
    assert_eq!(token_keys(false, &vec![]).len(), 0);
}

#[test]
fn key_paths_count_as_keywords() {
    let mut kp = KeywordProcessor::new(true);
    assert!(kp.case_sensitive());
    kp.add_key_path(&exact(&["a", " ", "b"]), "ab");
    assert_eq!(kp.len(), 1);
    kp.add_key_path(&exact(&["a"]), "a");
    assert_eq!(kp.len(), 2);
    kp.add_key_path(&exact(&["a", " ", "b"]), "AB");
    assert_eq!(kp.len(), 2);
    kp.add_key_path(&exact(&[]), "nothing");
    assert_eq!(kp.len(), 2);
    assert_eq!(kp.extract_keywords("a b a"), vec!["AB", "a"]);
}

#[test]
fn key_path_is_what_add_keyword_registers() {
    let mut by_word = KeywordProcessor::new(false);
    by_word.add_keyword_with_clean_word("Big Apple", "New York");
    let mut by_path = KeywordProcessor::new(false);
    assert!(!by_path.case_sensitive());
    by_path.add_key_path(&exact(&["big", " ", "apple"]), "New York");
    let text = "the BIG apple";
    assert_eq!(by_path.extract_keywords_with_span(text), vec![("New York", 4, 13)]);
    assert_eq!(by_path.extract_keywords_with_span(text), by_word.extract_keywords_with_span(text));
    by_path.add_keyword_with_clean_word("BIG APPLE", "NYC");
    assert_eq!(by_path.len(), 1);
    assert_eq!(by_path.extract_keywords(text), vec!["NYC"]);
}

#[test]
fn scan_of_given_tokens() {
    let kp = hello_processor();
    let tokens = vec![(0, "hello"), (5, " "), (6, "hello"), (11, " "), (12, "world")];
    let keys = exact(&["hello", " ", "hello", " ", "world"]);
    let mut scan = KeywordExtractor::from_tokens(tokens, keys, &kp);
    assert_eq!(scan.size_hint(), (0, Some(5)));
    assert_eq!(scan.next(), Some(("hello", 0, 5)));
    assert_eq!(scan.next(), Some(("hello world", 6, 17)));
    assert_eq!(scan.next(), None);
}

#[test]
fn scan_goes_by_the_keys_and_not_by_the_tokens() {
    let kp = hello_processor();
    let tokens = vec![(0, "HELLO"), (5, " "), (6, "World")];
    let keys = exact(&["hello", " ", "world"]);
    let mut scan = KeywordExtractor::from_tokens(tokens, keys, &kp);
    assert_eq!(scan.take_remaining(), vec![("hello world", 0, 11)]);
}

#[test]
fn span_ends_behind_the_bytes_of_the_last_token() {
    let mut kp = KeywordProcessor::new(true);
    kp.add_key_path(&exact(&["é", "ü"]), "eu");
    let tokens = vec![(0, "x"), (1, "é"), (3, "ü"), (5, "y")];
    let keys = exact(&["x", "é", "ü", "y"]);
    let mut scan = KeywordExtractor::from_tokens(tokens, keys, &kp);
    assert_eq!(scan.next(), Some(("eu", 1, 5)));
    assert_eq!(scan.next(), None);
}

#[test]
fn scan_without_tokens_or_without_keywords() {
    let kp = hello_processor();
    let mut scan = KeywordExtractor::from_tokens(vec![], vec![], &kp);
    assert_eq!(scan.next(), None);
    let empty = KeywordProcessor::new(true);
    let mut scan = KeywordExtractor::from_tokens(vec![(0, "hello")], exact(&["hello"]), &empty);
    assert_eq!(scan.next(), None);
    assert_eq!(scan.take_remaining(), vec![]);
}

#[test]
fn replacement_of_given_tokens() {
    let mut kp = KeywordProcessor::new(true);
    kp.add_key_path(&exact(&["love"]), "like");
    kp.add_key_path(&exact(&["Rust"]), "Java");
    let text = "I love Rust";
    let tokens = vec![(0, "I"), (1, " "), (2, "love"), (6, " "), (7, "Rust")];
    let keys = exact(&["I", " ", "love", " ", "Rust"]);
    let mut scan = KeywordExtractor::from_tokens(tokens, keys, &kp);
    assert_eq!(replace_matches(text, &mut scan), "I like Java");
    assert_eq!(scan.next(), None);
}

#[test]
fn replacement_of_what_is_left_keeps_what_came_before() {
    let mut kp = KeywordProcessor::new(true);
    kp.add_key_path(&exact(&["a"]), "A");
    let text = "a-a-a";
    let tokens = vec![(0, "a"), (1, "-"), (2, "a"), (3, "-"), (4, "a")];
    let keys = exact(&["a", "-", "a", "-", "a"]);
    let mut scan = KeywordExtractor::from_tokens(tokens, keys, &kp);
    assert_eq!(scan.next(), Some(("A", 0, 1)));
    assert_eq!(replace_matches(text, &mut scan), "a-A-A");
}
