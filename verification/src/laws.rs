//! What holds of every vocabulary and every text.

use crate::processor::{keyword_path, with_keyword};
use crate::scan::{
    lemma_longest_bounds, lemma_next_match_bounds, lemma_no_keywords_no_match, lemma_reach_bounds,
    lemma_spans_ordered, lemma_spans_unfold, longest, next_match, ordered, reach, spans_from,
    Span,
};
use crate::splice::{lemma_spans_cover_text, verbatim_cuts, splice, Cut};
use crate::vocabulary::{has_prefix, no_keywords, Keywords, Path};
use vstd::prelude::*;
use vstd::utf8::*;

verus! {

/// The count of keywords goes up by one when a word is registered whose key
/// path was not there, and stays as it is otherwise.
pub proof fn lemma_keyword_count(
    kw: Keywords,
    case_sensitive: bool,
    word: Seq<char>,
    clean_word: Seq<char>,
)
    requires
        kw.dom().finite(),
    ensures
        with_keyword(kw, case_sensitive, word, clean_word).dom().finite(),
        with_keyword(kw, case_sensitive, word, clean_word).dom().len() == if word.len() > 0
            && !kw.dom().contains(keyword_path(case_sensitive, word)) {
            kw.dom().len() + 1
        } else {
            kw.dom().len()
        },
{
    let path = keyword_path(case_sensitive, word);
    if word.len() > 0 && kw.dom().contains(path) {
        assert(kw.dom().insert(path) =~= kw.dom());
    }
}

/// Registering a word again keeps the count of keywords and gives the word
/// the replacement that came last.
pub proof fn lemma_registering_again(
    kw: Keywords,
    case_sensitive: bool,
    word: Seq<char>,
    first: Seq<char>,
    second: Seq<char>,
)
    ensures
        ({
            let once = with_keyword(kw, case_sensitive, word, first);
            let twice = with_keyword(once, case_sensitive, word, second);
            &&& twice.dom() == once.dom()
            &&& twice == with_keyword(kw, case_sensitive, word, second)
            &&& word.len() > 0 ==> twice[keyword_path(case_sensitive, word)] == second
        }),
{
    let once = with_keyword(kw, case_sensitive, word, first);
    let twice = with_keyword(once, case_sensitive, word, second);
    assert(twice.dom() =~= once.dom());
    assert(twice =~= with_keyword(kw, case_sensitive, word, second));
}

/// No keyword reaches beyond the walk: a keyword that starts at token
/// `start` covers no more tokens than the walk from there.
pub proof fn lemma_keyword_within_reach(kw: Keywords, keys: Path, start: int, len: int, done: int)
    requires
        0 <= start,
        0 <= done <= len,
        start + len <= keys.len(),
        kw.dom().contains(keys.subrange(start, start + len)),
    ensures
        len <= reach(kw, keys, start, done),
    decreases len - done,
{
    if done < len {
        let keyword = keys.subrange(start, start + len);
        assert(keys.subrange(start, start + done + 1) =~= keyword.subrange(0, done + 1));
        assert(keys.subrange(start, start + done + 1).is_prefix_of(keyword));
        assert(has_prefix(kw, keys.subrange(start, start + done + 1)));
        lemma_keyword_within_reach(kw, keys, start, len, done + 1);
    } else {
        lemma_reach_bounds(kw, keys, start, done);
    }
}

/// No keyword between the longest one and the limit.
pub proof fn lemma_longest_is_longest(kw: Keywords, keys: Path, start: int, limit: int, len: int)
    requires
        longest(kw, keys, start, limit) < len <= limit,
    ensures
        !kw.dom().contains(keys.subrange(start, start + len)),
    decreases limit,
{
    if len < limit {
        lemma_longest_is_longest(kw, keys, start, limit - 1, len);
    }
}

/// A match is the leftmost and the longest: no keyword starts at a token
/// that the scan passed over before the match, and no keyword that starts
/// where the match starts is longer.
pub proof fn lemma_match_is_leftmost_longest(
    kw: Keywords,
    keys: Path,
    idx: int,
    start: int,
    len: int,
)
    requires
        0 <= idx <= start,
        0 < len,
        start + len <= keys.len(),
        kw.dom().contains(keys.subrange(start, start + len)),
        next_match(kw, keys, idx) is Some,
        start <= next_match(kw, keys, idx)->0.first,
    ensures
        start == next_match(kw, keys, idx)->0.first,
        len <= next_match(kw, keys, idx)->0.len,
    decreases keys.len() - idx,
{
    let stop = reach(kw, keys, idx, 0);
    let best = longest(kw, keys, idx, stop);
    lemma_reach_bounds(kw, keys, idx, 0);
    lemma_longest_bounds(kw, keys, idx, stop);
    lemma_next_match_bounds(kw, keys, idx);
    if idx == start {
        lemma_keyword_within_reach(kw, keys, start, len, 0);
        if best < len {
            lemma_longest_is_longest(kw, keys, start, stop, len);
        }
    } else if best <= 0 {
        lemma_match_is_leftmost_longest(kw, keys, idx + 1, start, len);
    }
}

/// The spans of a scan lie in order in the text, none of them empty, and
/// together with what lies between them they make up the text.
pub proof fn lemma_scan_covers_text(kw: Keywords, keys: Path, pieces: Seq<Seq<char>>)
    requires
        keys.len() == pieces.len(),
        forall|i: int| 0 <= i < pieces.len() ==> (#[trigger] pieces[i]).len() > 0,
    ensures
        ({
            let text = encode_utf8(pieces.flatten());
            let spans = spans_from(kw, keys, pieces, 0);
            &&& ordered(spans, 0, text.len() as int)
            &&& splice(text, verbatim_cuts(text, spans), 0) == text
        }),
{
    let text = encode_utf8(pieces.flatten());
    let spans = spans_from(kw, keys, pieces, 0);
    assert(pieces.take(0) =~= Seq::<Seq<char>>::empty());
    lemma_spans_ordered(kw, keys, pieces, 0);
    lemma_spans_cover_text(text, spans, 0);
    assert(text.subrange(0, text.len() as int) =~= text);
}

/// Without keywords a scan reports nothing.
pub proof fn lemma_no_keywords_no_spans(keys: Path, pieces: Seq<Seq<char>>, idx: int)
    requires
        0 <= idx,
    ensures
        spans_from(no_keywords(), keys, pieces, idx) == Seq::<Span>::empty(),
{
    lemma_no_keywords_no_match(keys, idx);
    lemma_spans_unfold(no_keywords(), keys, pieces, idx);
}

/// Without tokens a scan reports nothing.
pub proof fn lemma_no_tokens_no_spans(kw: Keywords)
    ensures
        spans_from(kw, Seq::empty(), Seq::empty(), 0) == Seq::<Span>::empty(),
{
    lemma_spans_unfold(kw, Seq::empty(), Seq::empty(), 0);
}

/// With nothing to exchange, a text stays as it is.
pub proof fn lemma_nothing_to_replace(text: Seq<u8>)
    ensures
        splice(text, Seq::<Cut>::empty(), 0) == text,
{
    assert(text.subrange(0, text.len() as int) =~= text);
}

} // verus!
