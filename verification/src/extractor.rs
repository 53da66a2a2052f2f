//! The extractor: a scan of one text, handing out one match at a time.

use crate::keys::{keys_of, path_of, token_keys, TokenKey};
use crate::processor::KeywordProcessor;
use crate::scan::{
    keyword_spans, lemma_next_match_bounds, lemma_no_keywords_no_match, lemma_reach_bounds,
    lemma_spans_ordered, lemma_spans_unfold, longest, next_match, ordered, reach, span_of,
    spans_from, Span, TokenMatch,
};
use crate::tokens::{
    byte_len, laid_out, lemma_offset_monotone, lemma_offset_step, offset_of,
    split_word_bound_indices, token_texts, word_bounds,
};
use crate::vocabulary::{no_keywords, Path};
use vstd::prelude::*;

verus! {

/// What a reported match says: the replacement text and the two byte
/// offsets.
pub open spec fn span_view(found: (&str, usize, usize)) -> Span {
    (found.0@, found.1 as int, found.2 as int)
}

/// What a sequence of reported matches says.
pub open spec fn spans_view(found: Seq<(&str, usize, usize)>) -> Seq<Span> {
    Seq::new(found.len(), |i: int| span_view(found[i]))
}

/// A scan of the tokens of one text against the keywords of one processor.
///
/// Each call of [`KeywordExtractor::next`] hands out the next match and moves
/// on for good: a scan cannot be run again, only started anew.
pub struct KeywordExtractor<'a> {
    /// The index of the next token to read.
    idx: usize,
    /// The tokens of the text, each with the byte offset at which it starts.
    tokens: Vec<(usize, &'a str)>,
    /// The key of each token.
    keys: Vec<TokenKey<'a>>,
    processor: &'a KeywordProcessor,
}

impl<'a> KeywordExtractor<'a> {
    /// The texts of the tokens under scan.
    pub closed spec fn pieces(&self) -> Seq<Seq<char>> {
        token_texts(self.tokens@)
    }

    /// The keys of the tokens under scan.
    pub closed spec fn keys(&self) -> Path {
        path_of(self.keys@)
    }

    /// The text under scan: its tokens laid end to end.
    pub open spec fn text(&self) -> Seq<char> {
        self.pieces().flatten()
    }

    /// The index of the next token to read.
    pub closed spec fn position(&self) -> int {
        self.idx as int
    }

    /// The processor whose keywords are looked for.
    pub closed spec fn processor(&self) -> KeywordProcessor {
        *self.processor
    }

    /// The matches that the scan has yet to hand out.
    pub open spec fn remaining(&self) -> Seq<Span> {
        spans_from(self.processor()@, self.keys(), self.pieces(), self.position())
    }

    /// The tokens are laid out from the start of a text that fits in memory,
    /// each has its key, and the position is among them or at their end.
    /// This holds of every scan.
    #[verifier::type_invariant]
    pub closed spec fn wf(&self) -> bool {
        &&& self.idx <= self.tokens@.len()
        &&& self.keys@.len() == self.tokens@.len()
        &&& laid_out(self.tokens@)
        &&& byte_len(token_texts(self.tokens@).flatten()) <= usize::MAX
    }

    /// A scan from the first of `tokens`, whose keys are `keys`.
    pub fn from_tokens(
        tokens: Vec<(usize, &'a str)>,
        keys: Vec<TokenKey<'a>>,
        processor: &'a KeywordProcessor,
    ) -> (extractor: Self)
        requires
            keys@.len() == tokens@.len(),
            laid_out(tokens@),
            byte_len(token_texts(tokens@).flatten()) <= usize::MAX,
        ensures
            extractor.processor() == *processor,
            extractor.pieces() == token_texts(tokens@),
            extractor.keys() == path_of(keys@),
            extractor.position() == 0,
    {
        KeywordExtractor { idx: 0, tokens, keys, processor }
    }

    /// A scan of `text` from its start, for the keywords of `processor`.
    pub fn new(text: &'a str, processor: &'a KeywordProcessor) -> (extractor: Self)
        ensures
            extractor.processor() == *processor,
            extractor.text() == text@,
            extractor.pieces() == word_bounds(text@),
            extractor.keys() == keys_of(processor.is_case_sensitive(), word_bounds(text@)),
            extractor.position() == 0,
    {
        // a text that is in memory has a length that fits
        let _byte_count = text.as_bytes().len();
        let tokens = split_word_bound_indices(text);
        let keys = token_keys(processor.case_sensitive(), &tokens);
        KeywordExtractor::from_tokens(tokens, keys, processor)
    }

    /// No more matches are to come than there are tokens.
    pub fn size_hint(&self) -> (hint: (usize, Option<usize>))
        ensures
            hint.0 == 0,
            hint.1 == Some(self.pieces().len() as usize),
            self.pieces().len() <= usize::MAX,
    {
        proof {
            use_type_invariant(self);
        }
        (0, Some(self.tokens.len()))
    }

    /// The tokens under scan are not empty, there is a key for each, and
    /// their text fits in memory.
    pub proof fn lemma_tokens(&self)
        requires
            self.wf(),
        ensures
            self.keys().len() == self.pieces().len(),
            forall|i: int| 0 <= i < self.pieces().len() ==> (#[trigger] self.pieces()[i]).len() > 0,
            byte_len(self.text()) <= usize::MAX,
            0 <= self.position() <= self.pieces().len(),
    {
        let pieces = self.pieces();
        assert forall|i: int| 0 <= i < pieces.len() implies (#[trigger] pieces[i]).len() > 0 by {
            assert(pieces[i] == self.tokens@[i].1@);
        }
    }

    /// The end of token `i` in bytes, which is where token `i + 1` starts.
    proof fn lemma_token_end(&self, i: int)
        requires
            self.wf(),
            0 <= i < self.tokens@.len(),
        ensures
            self.tokens@[i].0 + byte_len(self.tokens@[i].1@) == offset_of(self.pieces(), i + 1),
            offset_of(self.pieces(), i + 1) <= usize::MAX,
            self.tokens@[i].0 == offset_of(self.pieces(), i),
    {
        let pieces = self.pieces();
        lemma_offset_step(pieces, i);
        lemma_offset_monotone(pieces, i + 1, pieces.len() as int);
    }

    /// Hands out the next match: the replacement text of the keyword found,
    /// and the byte offsets at which the match starts and ends in the text.
    /// `None` says that the scan is over.
    pub fn next(&mut self) -> (found: Option<(&'a str, usize, usize)>)
        ensures
            final(self).processor() == old(self).processor(),
            final(self).pieces() == old(self).pieces(),
            final(self).keys() == old(self).keys(),
            match next_match(old(self).processor()@, old(self).keys(), old(self).position()) {
                Some(m) => {
                    &&& found is Some
                    &&& span_view(found->0) == span_of(
                        old(self).processor()@,
                        old(self).keys(),
                        old(self).pieces(),
                        m,
                    )
                    &&& final(self).position() == m.resume
                },
                None => found is None && final(self).position() == old(self).pieces().len(),
            },
    {
        proof {
            use_type_invariant(&*self);
        }
        let ghost kw = self.processor@;
        let ghost pieces = self.pieces();
        let ghost keys = self.keys();
        let ghost n = pieces.len() as int;
        let trie = self.processor.trie();
        let mut node: usize = 0;
        let mut longest_sequence: Option<(&'a str, usize, usize)> = None;
        let mut traversal_start_idx = self.idx;
        proof {
            trie.lemma_root();
            assert(keys.subrange(traversal_start_idx as int, self.idx as int) =~= Seq::<
                Seq<char>,
            >::empty());
        }
        while self.idx < self.tokens.len()
            invariant
                self.wf(),
                self.processor() == old(self).processor(),
                pieces == old(self).pieces(),
                keys == old(self).keys(),
                kw == old(self).processor()@,
                trie.wf(),
                kw == trie@,
                pieces == self.pieces(),
                keys == self.keys(),
                n == pieces.len(),
                n == keys.len(),
                traversal_start_idx <= self.idx <= n,
                node == 0 || node < trie.node_count(),
                trie.path(node as int) == keys.subrange(
                    traversal_start_idx as int,
                    self.idx as int,
                ),
                reach(kw, keys, traversal_start_idx as int, 0) == reach(
                    kw,
                    keys,
                    traversal_start_idx as int,
                    self.idx - traversal_start_idx,
                ),
                next_match(kw, keys, old(self).position()) == next_match(
                    kw,
                    keys,
                    traversal_start_idx as int,
                ),
                ({
                    let len = longest(
                        kw,
                        keys,
                        traversal_start_idx as int,
                        self.idx - traversal_start_idx,
                    );
                    &&& len > 0 <==> longest_sequence is Some
                    &&& len > 0 ==> span_view(longest_sequence->0) == span_of(
                        kw,
                        keys,
                        pieces,
                        TokenMatch { first: traversal_start_idx as int, len, resume: 0 },
                    )
                }),
            decreases n - traversal_start_idx, n - self.idx,
        {
            let (token_start_idx, token) = self.tokens[self.idx];
            let ghost at = self.idx as int;
            let ghost start = traversal_start_idx as int;
            proof {
                self.lemma_token_end(at);
                self.lemma_token_end(start);
                assert(keys.subrange(start, at).push(keys[at]) =~= keys.subrange(start, at + 1));
            }
            let found = trie.child(node, self.keys[self.idx].as_str());
            self.idx += 1;

            if let Some(child) = found {
                node = child;
                if let Some(clean_word) = trie.clean_word(node) {
                    longest_sequence =
                    Some(
                        (
                            clean_word,
                            self.tokens[traversal_start_idx].0,
                            token_start_idx + token.len(),
                        ),
                    );
                }
            } else {
                if let kw_found @ Some(_) = longest_sequence {
                    self.idx -= 1;
                    proof {
                        lemma_reach_bounds(kw, keys, start, 0);
                    }
                    return kw_found;
                } else {
                    self.idx = traversal_start_idx + 1;
                    // start over from the root
                    node = 0;
                    traversal_start_idx = self.idx;
                    proof {
                        trie.lemma_root();
                        assert(keys.subrange(start + 1, start + 1) =~= Seq::<Seq<char>>::empty());
                    }
                }
            }
        }

        // only the last match of a scan, or its end, gets here
        longest_sequence
    }

    /// Hands out all the matches that are left, in order, and ends the scan.
    ///
    /// The matches do not overlap, and none is empty.
    pub fn take_remaining(&mut self) -> (found: Vec<(&'a str, usize, usize)>)
        ensures
            final(self).processor() == old(self).processor(),
            final(self).pieces() == old(self).pieces(),
            final(self).keys() == old(self).keys(),
            final(self).position() == old(self).pieces().len(),
            spans_view(found@) == old(self).remaining(),
            ordered(
                spans_view(found@),
                offset_of(old(self).pieces(), old(self).position()) as int,
                byte_len(old(self).text()) as int,
            ),
    {
        let mut found: Vec<(&'a str, usize, usize)> = Vec::new();
        let ghost kw = self.processor()@;
        let ghost pieces = self.pieces();
        let ghost keys = self.keys();
        let ghost all = self.remaining();
        proof {
            use_type_invariant(&*self);
            self.lemma_tokens();
            lemma_spans_ordered(kw, keys, pieces, self.position());
            assert(spans_view(found@) + all =~= all);
        }
        loop
            invariant
                self.processor() == old(self).processor(),
                self.pieces() == pieces,
                self.keys() == keys,
                kw == self.processor()@,
                0 <= self.position() <= pieces.len(),
                spans_view(found@) + self.remaining() == all,
            ensures
                self.processor() == old(self).processor(),
                self.pieces() == pieces,
                self.keys() == keys,
                self.position() == pieces.len(),
                spans_view(found@) == all,
            decreases pieces.len() - self.position(),
        {
            let ghost before = spans_view(found@);
            let ghost at = self.position();
            proof {
                use_type_invariant(&*self);
                self.lemma_tokens();
                lemma_spans_unfold(kw, keys, pieces, at);
                lemma_next_match_bounds(kw, keys, at);
            }
            match self.next() {
                Some(span) => {
                    found.push(span);
                    proof {
                        let m = next_match(kw, keys, at)->0;
                        let rest = spans_from(kw, keys, pieces, m.resume);
                        assert(spans_view(found@) =~= before.push(span_view(span)));
                        assert(before.push(span_view(span)) + rest =~= before + (seq![
                            span_view(span),
                        ] + rest));
                    }
                },
                None => {
                    proof {
                        assert(before + Seq::<Span>::empty() =~= before);
                    }
                    break ;
                },
            }
        }
        found
    }
}

/// The replacement texts of the spans, without the offsets.
pub open spec fn span_texts(spans: Seq<Span>) -> Seq<Seq<char>> {
    Seq::new(spans.len(), |i: int| spans[i].0)
}

/// What a sequence of reported keywords says.
pub open spec fn texts_view(found: Seq<&str>) -> Seq<Seq<char>> {
    Seq::new(found.len(), |i: int| found[i]@)
}

impl KeywordProcessor {
    /// The keywords found in `text`, each with the byte offsets at which
    /// its match starts and ends, in the order of the text.
    ///
    /// At each position the longest keyword wins. The matches do not
    /// overlap, and none is empty. The result carries the replacement
    /// texts, not the wording of the text.
    pub fn extract_keywords_with_span<'a>(&'a self, text: &'a str) -> (found: Vec<
        (&'a str, usize, usize),
    >)
        ensures
            spans_view(found@) == keyword_spans(self@, self.is_case_sensitive(), text@),
            ordered(spans_view(found@), 0, byte_len(text@) as int),
            byte_len(text@) <= usize::MAX,
            text@.len() == 0 ==> found@.len() == 0,
            self@ == no_keywords() ==> found@.len() == 0,
    {
        let mut scan = KeywordExtractor::new(text, self);
        proof {
            let pieces = word_bounds(text@);
            let keys = keys_of(self.is_case_sensitive(), pieces);
            use_type_invariant(&scan);
            scan.lemma_tokens();
            assert(pieces.take(0) =~= Seq::<Seq<char>>::empty());
            lemma_spans_unfold(self@, keys, pieces, 0);
            if pieces.len() > 0 && text@.len() == 0 {
                assert(pieces.flatten() == pieces.first() + pieces.drop_first().flatten());
                assert(false);
            }
            if self@ == no_keywords() {
                lemma_no_keywords_no_match(keys, 0);
            }
        }
        scan.take_remaining()
    }

    /// The replacement texts of the keywords found in `text`, in the order
    /// of the text.
    pub fn extract_keywords<'a>(&'a self, text: &'a str) -> (found: Vec<&'a str>)
        ensures
            texts_view(found@) == span_texts(
                keyword_spans(self@, self.is_case_sensitive(), text@),
            ),
            text@.len() == 0 ==> found@.len() == 0,
            self@ == no_keywords() ==> found@.len() == 0,
    {
        let spans = self.extract_keywords_with_span(text);
        let mut found: Vec<&'a str> = Vec::new();
        let mut i: usize = 0;
        while i < spans.len()
            invariant
                i <= spans.len(),
                found@.len() == i,
                forall|j: int| 0 <= j < i ==> (#[trigger] found@[j])@ == spans@[j].0@,
            decreases spans.len() - i,
        {
            found.push(spans[i].0);
            i = i + 1;
        }
        proof {
            assert(texts_view(found@) =~= span_texts(spans_view(spans@)));
        }
        found
    }
}

} // verus!
