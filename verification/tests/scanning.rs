use flashtext2::{KeywordExtractor, KeywordProcessor};

#[test]
fn next_hands_out_one_match_at_a_time() {
    let mut kp = KeywordProcessor::new(true);
    kp.add_keywords_from_iter(&["hello", "world", "hello world"]);
    let mut scan = KeywordExtractor::new("hello hello world", &kp);
    assert_eq!(scan.next(), Some(("hello", 0, 5)));
    assert_eq!(scan.next(), Some(("hello world", 6, 17)));
    assert_eq!(scan.next(), None);
    assert_eq!(scan.next(), None);
}

#[test]
fn a_finished_scan_stays_finished() {
    let mut kp = KeywordProcessor::new(true);
    kp.add_keyword("b");
    let mut scan = KeywordExtractor::new("a b c", &kp);
    assert_eq!(scan.next(), Some(("b", 2, 3)));
    assert_eq!(scan.next(), None);
    assert_eq!(scan.next(), None);
    let mut fresh = KeywordExtractor::new("a b c", &kp);
    assert_eq!(fresh.next(), Some(("b", 2, 3)));
}

#[test]
fn scan_of_empty_text_is_over_at_once() {
    let mut kp = KeywordProcessor::new(true);
    kp.add_keyword("b");
    let mut scan = KeywordExtractor::new("", &kp);
    assert_eq!(scan.size_hint(), (0, Some(0)));
    assert_eq!(scan.next(), None);
}

#[test]
fn size_hint_is_bounded_by_the_tokens() {
    let kp = KeywordProcessor::new(true);
    let scan = KeywordExtractor::new("The quick (\"brown\")  fox", &kp);
    assert_eq!(scan.size_hint(), (0, Some(11)));
    let mut scan = KeywordExtractor::new("a b", &kp);
    assert_eq!(scan.size_hint(), (0, Some(3)));
    assert_eq!(scan.next(), None);
    assert_eq!(scan.size_hint(), (0, Some(3)));
}

#[test]
fn scans_of_one_processor_do_not_disturb_each_other() {
    let mut kp = KeywordProcessor::new(false);
    kp.add_keywords_from_iter(&["one", "two"]);
    let mut first = KeywordExtractor::new("ONE two", &kp);
    let mut second = KeywordExtractor::new("two one", &kp);
    assert_eq!(first.next(), Some(("one", 0, 3)));
    assert_eq!(second.next(), Some(("two", 0, 3)));
    assert_eq!(first.next(), Some(("two", 4, 7)));
    assert_eq!(second.next(), Some(("one", 4, 7)));
    assert_eq!(first.next(), None);
    assert_eq!(second.next(), None);
}

#[test]
fn take_remaining_hands_out_what_is_left() {
    let mut kp = KeywordProcessor::new(true);
    kp.add_keywords_from_iter(&["a", "c", "e"]);
    let mut scan = KeywordExtractor::new("a b c d e", &kp);
    assert_eq!(scan.next(), Some(("a", 0, 1)));
    assert_eq!(scan.take_remaining(), vec![("c", 4, 5), ("e", 8, 9)]);
    assert_eq!(scan.take_remaining(), vec![]);
    assert_eq!(scan.next(), None);
}
