//! What a scan reports: the greedy longest-match rule over token keys.
//!
//! A scan works on the keys of the tokens of a text. An attempt starts at a
//! token and walks the trie for as long as the keys lead from node to node.
//! The longest keyword met on the way is the match of that attempt.

use crate::keys::keys_of;
use crate::tokens::{
    byte_len, lemma_offset_monotone, lemma_offsets_increase, offset_of, word_bounds,
};
use crate::vocabulary::{has_prefix, no_keywords, Keywords, Path};
use vstd::prelude::*;

verus! {

/// A match in terms of tokens.
pub struct TokenMatch {
    /// The index of the first token of the match.
    pub first: int,
    /// The number of tokens that the match covers.
    pub len: int,
    /// The index of the token at which the scan goes on.
    pub resume: int,
}

/// A match in terms of the text: the replacement text of the keyword, and
/// the byte offsets at which the match starts and ends.
pub type Span = (Seq<char>, int, int);

/// The number of tokens that a walk from token `start` covers before a key
/// leads nowhere or the tokens run out, given that it has covered `done`.
pub open spec fn reach(kw: Keywords, keys: Path, start: int, done: int) -> int
    decreases keys.len() - start - done,
{
    if 0 <= start && 0 <= done && start + done < keys.len() && has_prefix(
        kw,
        keys.subrange(start, start + done + 1),
    ) {
        reach(kw, keys, start, done + 1)
    } else {
        done
    }
}

/// The length in tokens of the longest keyword that starts at token `start`
/// and covers at most `limit` tokens; 0 if there is none.
pub open spec fn longest(kw: Keywords, keys: Path, start: int, limit: int) -> int
    decreases limit,
{
    if limit <= 0 {
        0
    } else if kw.dom().contains(keys.subrange(start, start + limit)) {
        limit
    } else {
        longest(kw, keys, start, limit - 1)
    }
}

/// The first match of a scan that starts at token `idx`.
///
/// The attempt at `idx` yields its longest keyword, and the scan goes on at
/// the token that ended the walk. An attempt without a keyword that ran out
/// of tokens ends the scan; one that was stopped by a key gives way to the
/// attempt at the next token.
pub open spec fn next_match(kw: Keywords, keys: Path, idx: int) -> Option<TokenMatch>
    decreases keys.len() - idx,
{
    if idx < 0 || idx >= keys.len() {
        None
    } else {
        let stop = reach(kw, keys, idx, 0);
        let len = longest(kw, keys, idx, stop);
        if len > 0 {
            Some(TokenMatch { first: idx, len, resume: idx + stop })
        } else if idx + stop >= keys.len() {
            None
        } else {
            next_match(kw, keys, idx + 1)
        }
    }
}

/// A walk covers no fewer tokens than it had covered, and no more than
/// there are.
pub proof fn lemma_reach_bounds(kw: Keywords, keys: Path, start: int, done: int)
    requires
        0 <= start,
        0 <= done,
        start + done <= keys.len(),
    ensures
        done <= reach(kw, keys, start, done),
        start + reach(kw, keys, start, done) <= keys.len(),
    decreases keys.len() - start - done,
{
    if start + done < keys.len() && has_prefix(kw, keys.subrange(start, start + done + 1)) {
        lemma_reach_bounds(kw, keys, start, done + 1);
    }
}

/// The longest keyword within a limit is within that limit, and it is a
/// keyword if it has any length.
pub proof fn lemma_longest_bounds(kw: Keywords, keys: Path, start: int, limit: int)
    ensures
        0 <= longest(kw, keys, start, limit),
        0 <= limit ==> longest(kw, keys, start, limit) <= limit,
        longest(kw, keys, start, limit) > 0 ==> kw.dom().contains(
            keys.subrange(start, start + longest(kw, keys, start, limit)),
        ),
    decreases limit,
{
    if limit > 0 && !kw.dom().contains(keys.subrange(start, start + limit)) {
        lemma_longest_bounds(kw, keys, start, limit - 1);
    }
}

/// A match lies within the tokens, at or after the token at which the scan
/// started; it covers at least one token, it spells a keyword, and the scan
/// goes on behind it.
pub proof fn lemma_next_match_bounds(kw: Keywords, keys: Path, idx: int)
    requires
        0 <= idx,
    ensures
        match next_match(kw, keys, idx) {
            Some(m) => {
                &&& idx <= m.first
                &&& 0 < m.len
                &&& m.first + m.len <= m.resume <= keys.len()
                &&& kw.dom().contains(keys.subrange(m.first, m.first + m.len))
            },
            None => true,
        },
    decreases keys.len() - idx,
{
    if idx < keys.len() {
        let stop = reach(kw, keys, idx, 0);
        lemma_reach_bounds(kw, keys, idx, 0);
        lemma_longest_bounds(kw, keys, idx, stop);
        if longest(kw, keys, idx, stop) <= 0 && idx + stop < keys.len() {
            lemma_next_match_bounds(kw, keys, idx + 1);
        }
    }
}

/// All the matches of a scan that starts at token `idx`, in order.
pub open spec fn matches_from(kw: Keywords, keys: Path, idx: int) -> Seq<TokenMatch>
    decreases keys.len() - idx,
    via matches_from_decreases
{
    if idx < 0 {
        Seq::empty()
    } else {
        match next_match(kw, keys, idx) {
            Some(m) => seq![m] + matches_from(kw, keys, m.resume),
            None => Seq::empty(),
        }
    }
}

#[via_fn]
proof fn matches_from_decreases(kw: Keywords, keys: Path, idx: int) {
    if idx >= 0 {
        lemma_next_match_bounds(kw, keys, idx);
    }
}

/// The span of a token match: the replacement of the keyword that it
/// spells, from the first byte of its first token to the byte behind its
/// last.
pub open spec fn span_of(kw: Keywords, keys: Path, pieces: Seq<Seq<char>>, m: TokenMatch) -> Span {
    (
        kw[keys.subrange(m.first, m.first + m.len)],
        offset_of(pieces, m.first) as int,
        offset_of(pieces, m.first + m.len) as int,
    )
}

/// All the spans of a scan that starts at token `idx`, in order.
pub open spec fn spans_from(kw: Keywords, keys: Path, pieces: Seq<Seq<char>>, idx: int) -> Seq<
    Span,
> {
    matches_from(kw, keys, idx).map_values(|m: TokenMatch| span_of(kw, keys, pieces, m))
}

/// The spans of a scan are the span of its first match, followed by the
/// spans of the scan that goes on behind it.
pub proof fn lemma_spans_unfold(kw: Keywords, keys: Path, pieces: Seq<Seq<char>>, idx: int)
    requires
        0 <= idx,
    ensures
        spans_from(kw, keys, pieces, idx) == match next_match(kw, keys, idx) {
            Some(m) => seq![span_of(kw, keys, pieces, m)] + spans_from(
                kw,
                keys,
                pieces,
                m.resume,
            ),
            None => Seq::empty(),
        },
{
    match next_match(kw, keys, idx) {
        Some(m) => {
            let rest = matches_from(kw, keys, m.resume);
            let f = |m: TokenMatch| span_of(kw, keys, pieces, m);
            assert((seq![m] + rest).map_values(f) =~= seq![f(m)] + rest.map_values(f));
        },
        None => {},
    }
}

/// All the spans that a scan of `text` reports, in order: the result of
/// extraction.
pub open spec fn keyword_spans(kw: Keywords, case_sensitive: bool, text: Seq<char>) -> Seq<Span> {
    spans_from(kw, keys_of(case_sensitive, word_bounds(text)), word_bounds(text), 0)
}

/// The spans follow one another between the offsets `from` and `to`: each
/// starts no earlier than the one before it ended, and ends behind its start.
pub open spec fn ordered(spans: Seq<Span>, from: int, to: int) -> bool
    decreases spans.len(),
{
    if spans.len() == 0 {
        from <= to
    } else {
        &&& from <= spans[0].1 < spans[0].2
        &&& ordered(spans.drop_first(), spans[0].2, to)
    }
}

/// Spans that are in order from an offset are in order from any earlier
/// one.
pub proof fn lemma_ordered_from_earlier(spans: Seq<Span>, earlier: int, from: int, to: int)
    requires
        ordered(spans, from, to),
        earlier <= from,
    ensures
        ordered(spans, earlier, to),
{
}

/// The spans of a scan do not overlap: they follow one another from the
/// start of the token at which the scan began to the end of the text, and
/// none is empty.
pub proof fn lemma_spans_ordered(kw: Keywords, keys: Path, pieces: Seq<Seq<char>>, idx: int)
    requires
        0 <= idx <= keys.len(),
        keys.len() == pieces.len(),
        forall|i: int| 0 <= i < pieces.len() ==> (#[trigger] pieces[i]).len() > 0,
    ensures
        ordered(
            spans_from(kw, keys, pieces, idx),
            offset_of(pieces, idx) as int,
            byte_len(pieces.flatten()) as int,
        ),
    decreases keys.len() - idx,
{
    lemma_spans_unfold(kw, keys, pieces, idx);
    lemma_next_match_bounds(kw, keys, idx);
    match next_match(kw, keys, idx) {
        Some(m) => {
            let span = span_of(kw, keys, pieces, m);
            let rest = spans_from(kw, keys, pieces, m.resume);
            let spans = seq![span] + rest;
            let to = byte_len(pieces.flatten()) as int;
            assert(spans.drop_first() =~= rest);
            lemma_offset_monotone(pieces, idx, m.first);
            lemma_offsets_increase(pieces, m.first, m.first + m.len);
            lemma_offset_monotone(pieces, m.first + m.len, m.resume);
            lemma_spans_ordered(kw, keys, pieces, m.resume);
            lemma_ordered_from_earlier(rest, span.2, offset_of(pieces, m.resume) as int, to);
        },
        None => {
            lemma_offset_monotone(pieces, idx, pieces.len() as int);
        },
    }
}

/// Without keywords a walk covers no token.
pub proof fn lemma_no_keywords_no_reach(keys: Path, start: int)
    ensures
        reach(no_keywords(), keys, start, 0) == 0,
{
    if 0 <= start && start < keys.len() {
        assert(!has_prefix(no_keywords(), keys.subrange(start, start + 1)));
    }
}

/// Without keywords a scan finds no match.
pub proof fn lemma_no_keywords_no_match(keys: Path, idx: int)
    ensures
        next_match(no_keywords(), keys, idx) is None,
    decreases keys.len() - idx,
{
    if 0 <= idx < keys.len() {
        lemma_no_keywords_no_reach(keys, idx);
        lemma_no_keywords_no_match(keys, idx + 1);
    }
}

} // verus!
