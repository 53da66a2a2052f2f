//! Replacement: the text with each match exchanged for its replacement.

use crate::extractor::{span_view, KeywordExtractor};
use crate::keys::keys_of;
use crate::processor::KeywordProcessor;
use crate::scan::{
    keyword_spans, lemma_next_match_bounds, lemma_no_keywords_no_match, lemma_spans_unfold,
    next_match, span_of, spans_from,
};
use crate::splice::{replaced_bytes, replacement_cuts, splice, Cut};
use crate::tokens::{
    byte_len, lemma_encode_concat, lemma_offset_monotone, offset_of, word_bounds,
};
use crate::vocabulary::no_keywords;
use vstd::prelude::*;
use vstd::seq_lib::lemma_flatten_concat;
use vstd::string::*;
use vstd::utf8::*;

verus! {

/// Where one text ends and another follows it, a character starts.
pub proof fn lemma_boundary_between(a: Seq<char>, b: Seq<char>)
    ensures
        is_char_boundary(encode_utf8(a + b), byte_len(a) as int),
    decreases a.len(),
{
    let bytes = encode_utf8(a + b);
    encode_utf8_valid_utf8(a + b);
    lemma_encode_concat(a, b);
    if a.len() > 0 {
        let rest = a.drop_first();
        assert((a + b).drop_first() =~= rest + b);
        encode_utf8_first_scalar(a + b);
        assert(pop_first_scalar(bytes) =~= encode_utf8(rest + b));
        lemma_boundary_between(rest, b);
        assert(byte_len(a) == encode_scalar(a[0] as u32).len() + byte_len(rest));
        assert(encode_scalar(a[0] as u32).len() > 0);
    }
}

/// Texts with the same bytes are the same text.
pub proof fn lemma_same_bytes(a: Seq<char>, b: Seq<char>)
    requires
        encode_utf8(a) == encode_utf8(b),
    ensures
        a == b,
{
    encode_utf8_decode_utf8(a);
    encode_utf8_decode_utf8(b);
}

/// The part of `text` between the starts of piece `i` and piece `j`.
fn between<'a>(
    text: &'a str,
    from: usize,
    to: usize,
    Ghost(pieces): Ghost<Seq<Seq<char>>>,
    Ghost(i): Ghost<int>,
    Ghost(j): Ghost<int>,
) -> (part: &'a str)
    requires
        pieces.flatten() == text@,
        0 <= i <= j <= pieces.len(),
        from == offset_of(pieces, i),
        to == offset_of(pieces, j),
    ensures
        part@ == pieces.subrange(i, j).flatten(),
        encode_utf8(part@) == encode_utf8(text@).subrange(from as int, to as int),
{
    let ghost a = pieces.take(i).flatten();
    let ghost m = pieces.subrange(i, j).flatten();
    let ghost z = pieces.skip(j).flatten();
    proof {
        assert(pieces =~= pieces.take(j) + pieces.skip(j));
        assert(pieces.take(j) =~= pieces.take(i) + pieces.subrange(i, j));
        lemma_flatten_concat(pieces.take(j), pieces.skip(j));
        lemma_flatten_concat(pieces.take(i), pieces.subrange(i, j));
        lemma_encode_concat(a + m, z);
        lemma_encode_concat(a, m);
        lemma_boundary_between(a + m, z);
        lemma_boundary_between(a, m);
    }
    let (head, _) = text.split_at(to);
    proof {
        assert(encode_utf8(text@).subrange(0, to as int) =~= encode_utf8(a + m));
        lemma_same_bytes(head@, a + m);
    }
    let (_, part) = head.split_at(from);
    proof {
        assert(encode_utf8(a + m).subrange(from as int, to as int) =~= encode_utf8(m));
        lemma_same_bytes(part@, m);
        assert(encode_utf8(text@).subrange(from as int, to as int) =~= encode_utf8(m));
    }
    part
}

/// The text under scan with each match that is left exchanged for its
/// replacement. This ends the scan.
///
/// What lies between the matches, and before the first of them, is kept
/// byte for byte.
pub fn replace_matches<'a>(text: &'a str, scan: &mut KeywordExtractor<'a>) -> (replaced: String)
    requires
        old(scan).text() == text@,
    ensures
        final(scan).processor() == old(scan).processor(),
        final(scan).pieces() == old(scan).pieces(),
        final(scan).keys() == old(scan).keys(),
        final(scan).position() == old(scan).pieces().len(),
        encode_utf8(replaced@) == splice(
            encode_utf8(text@),
            replacement_cuts(old(scan).remaining()),
            0,
        ),
        old(scan).remaining().len() == 0 ==> replaced@ == text@,
{
    let mut string = String::new();
    let mut prev_end: usize = 0;
    let ghost kw = scan.processor()@;
    let ghost pieces = scan.pieces();
    let ghost keys = scan.keys();
    let ghost bytes = encode_utf8(text@);
    let ghost all = scan.remaining();
    let ghost done: int = 0;
    proof {
        use_type_invariant(&*scan);
        scan.lemma_tokens();
        assert(pieces.take(0) =~= Seq::<Seq<char>>::empty());
        assert(encode_utf8(string@) + splice(bytes, replacement_cuts(all), 0) =~= splice(
            bytes,
            replacement_cuts(all),
            0,
        ));
        if all.len() == 0 {
            assert(replacement_cuts(all) =~= Seq::<Cut>::empty());
            assert(bytes.subrange(0, bytes.len() as int) =~= bytes);
        }
    }
    loop
        invariant
            scan.processor() == old(scan).processor(),
            scan.pieces() == pieces,
            scan.keys() == keys,
            pieces.flatten() == text@,
            byte_len(text@) <= usize::MAX,
            keys.len() == pieces.len(),
            kw == scan.processor()@,
            bytes == encode_utf8(text@),
            0 <= done <= scan.position() <= pieces.len(),
            prev_end == offset_of(pieces, done),
            encode_utf8(string@) + splice(
                bytes,
                replacement_cuts(scan.remaining()),
                prev_end as int,
            ) == splice(bytes, replacement_cuts(all), 0),
        ensures
            scan.processor() == old(scan).processor(),
            scan.pieces() == pieces,
            scan.keys() == keys,
            scan.position() == pieces.len(),
            0 <= done <= pieces.len(),
            prev_end == offset_of(pieces, done),
            encode_utf8(string@) + bytes.subrange(prev_end as int, bytes.len() as int) == splice(
                bytes,
                replacement_cuts(all),
                0,
            ),
        decreases pieces.len() - scan.position(),
    {
        let ghost at = scan.position();
        let ghost before = string@;
        let ghost later = scan.remaining();
        proof {
            lemma_spans_unfold(kw, keys, pieces, at);
            lemma_next_match_bounds(kw, keys, at);
        }
        match scan.next() {
            Some((keyword, start, end)) => {
                let ghost m = next_match(kw, keys, at)->0;
                let ghost rest = spans_from(kw, keys, pieces, m.resume);
                proof {
                    assert(span_view((keyword, start, end)) == span_of(kw, keys, pieces, m));
                    lemma_offset_monotone(pieces, m.first + m.len, pieces.len() as int);
                }
                let part = between(
                    text,
                    prev_end,
                    start,
                    Ghost(pieces),
                    Ghost(done),
                    Ghost(m.first),
                );
                string.append(part);
                string.append(keyword);
                proof {
                    let cuts = replacement_cuts(later);
                    assert(cuts.drop_first() =~= replacement_cuts(rest));
                    lemma_encode_concat(before, part@);
                    lemma_encode_concat(before + part@, keyword@);
                    assert(encode_utf8(string@) + splice(bytes, replacement_cuts(rest), end as int)
                        =~= encode_utf8(before) + splice(bytes, cuts, prev_end as int));
                    done = m.first + m.len;
                }
                prev_end = end;
            },
            None => {
                proof {
                    assert(replacement_cuts(later) =~= Seq::<Cut>::empty());
                }
                break ;
            },
        }
    }
    proof {
        assert(pieces.take(pieces.len() as int) =~= pieces);
    }
    let ghost before = string@;
    let part = between(
        text,
        prev_end,
        text.len(),
        Ghost(pieces),
        Ghost(done),
        Ghost(pieces.len() as int),
    );
    string.append(part);
    proof {
        lemma_encode_concat(before, part@);
        if all.len() == 0 {
            lemma_same_bytes(string@, text@);
        }
    }
    string
}

impl KeywordProcessor {
    /// The text with each keyword found in it exchanged for its replacement.
    ///
    /// What lies between the matches is kept byte for byte. A replacement
    /// need not have the length of what it replaces. A text without matches
    /// comes back as it is.
    pub fn replace_keywords(&self, text: &str) -> (replaced: String)
        ensures
            encode_utf8(replaced@) == replaced_bytes(self@, self.is_case_sensitive(), text@),
            keyword_spans(self@, self.is_case_sensitive(), text@).len() == 0 ==> replaced@
                == text@,
            text@.len() == 0 ==> replaced@ == text@,
            self@ == no_keywords() ==> replaced@ == text@,
    {
        let mut scan = KeywordExtractor::new(text, self);
        proof {
            let pieces = word_bounds(text@);
            let keys = keys_of(self.is_case_sensitive(), pieces);
            use_type_invariant(&scan);
            scan.lemma_tokens();
            lemma_spans_unfold(self@, keys, pieces, 0);
            if pieces.len() > 0 && text@.len() == 0 {
                assert(pieces.flatten() == pieces.first() + pieces.drop_first().flatten());
                assert(false);
            }
            if self@ == no_keywords() {
                lemma_no_keywords_no_match(keys, 0);
            }
        }
        replace_matches(text, &mut scan)
    }
}

} // verus!
