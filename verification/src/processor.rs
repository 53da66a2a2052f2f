//! The keyword processor: a vocabulary and its case policy.

use crate::keys::{keys_of, path_of, token_keys, TokenKey};
use crate::tokens::{split_word_bound_indices, token_texts, word_bounds};
use crate::trie::Trie;
use crate::vocabulary::{no_keywords, Keywords, Path};
use vstd::prelude::*;

verus! {

/// The vocabulary `kw` after the key path `path` was registered with the
/// replacement `clean_word`. The empty path is never registered.
pub open spec fn with_path(kw: Keywords, path: Path, clean_word: Seq<char>) -> Keywords {
    if path.len() == 0 {
        kw
    } else {
        kw.insert(path, clean_word)
    }
}

/// The key path under which `word` is registered: the keys of its tokens.
pub open spec fn keyword_path(case_sensitive: bool, word: Seq<char>) -> Path {
    keys_of(case_sensitive, word_bounds(word))
}

/// The vocabulary `kw` after `word` was registered with the replacement
/// `clean_word`. The empty word is never registered.
pub open spec fn with_keyword(
    kw: Keywords,
    case_sensitive: bool,
    word: Seq<char>,
    clean_word: Seq<char>,
) -> Keywords {
    if word.len() == 0 {
        kw
    } else {
        kw.insert(keyword_path(case_sensitive, word), clean_word)
    }
}

/// The vocabulary `kw` after each of `pairs` was registered in turn, the
/// first of a pair being the word and the second its replacement.
pub open spec fn with_keywords(
    kw: Keywords,
    case_sensitive: bool,
    pairs: Seq<(Seq<char>, Seq<char>)>,
) -> Keywords
    decreases pairs.len(),
{
    if pairs.len() == 0 {
        kw
    } else {
        with_keyword(
            with_keywords(kw, case_sensitive, pairs.drop_last()),
            case_sensitive,
            pairs.last().0,
            pairs.last().1,
        )
    }
}

/// Each word paired with itself.
pub open spec fn plain_pairs(words: Seq<&str>) -> Seq<(Seq<char>, Seq<char>)> {
    Seq::new(words.len(), |i: int| (words[i]@, words[i]@))
}

/// The texts of pairs of strings.
pub open spec fn clean_pairs(pairs: Seq<(&str, &str)>) -> Seq<(Seq<char>, Seq<char>)> {
    Seq::new(pairs.len(), |i: int| (pairs[i].0@, pairs[i].1@))
}

/// A vocabulary of keywords, held in a prefix trie over token keys, with
/// the case policy that it was made with.
pub struct KeywordProcessor {
    trie: Trie,
    case_sensitive: bool,
}

impl View for KeywordProcessor {
    type V = Keywords;

    /// The registered keywords: each key path with its replacement text.
    closed spec fn view(&self) -> Keywords {
        self.trie@
    }
}

impl KeywordProcessor {
    /// The trie behind the processor is well formed. This holds of every
    /// processor.
    #[verifier::type_invariant]
    spec fn wf(&self) -> bool {
        self.trie.wf()
    }

    /// Whether keywords match only in the case in which they were given.
    pub closed spec fn is_case_sensitive(&self) -> bool {
        self.case_sensitive
    }

    /// A processor without keywords. With `case_sensitive` unset, keywords
    /// match whatever the case of the text.
    pub fn new(case_sensitive: bool) -> (processor: Self)
        ensures
            processor@ == no_keywords(),
            processor.is_case_sensitive() == case_sensitive,
    {
        KeywordProcessor { trie: Trie::new(), case_sensitive }
    }

    /// The trie of the processor, for the scan that walks it.
    pub(crate) fn trie(&self) -> (trie: &Trie)
        ensures
            trie.wf(),
            trie@ == self@,
    {
        proof {
            use_type_invariant(self);
        }
        &self.trie
    }

    /// The case policy of the processor.
    pub fn case_sensitive(&self) -> (case_sensitive: bool)
        ensures
            case_sensitive == self.is_case_sensitive(),
    {
        self.case_sensitive
    }

    /// The number of registered keywords.
    pub fn len(&self) -> (len: usize)
        ensures
            len == self@.dom().len(),
            self@.dom().finite(),
    {
        proof {
            use_type_invariant(self);
        }
        self.trie.len()
    }

    /// Whether no keyword is registered.
    pub fn is_empty(&self) -> (empty: bool)
        ensures
            empty <==> self@ == no_keywords(),
    {
        proof {
            use_type_invariant(self);
        }
        let len = self.trie.len();
        proof {
            if len == 0 {
                assert(self@ =~= no_keywords());
            }
        }
        len == 0
    }

    /// Registers the keyword that `keys` spell, with the replacement
    /// `clean_word`.
    ///
    /// A keyword that was registered before under the same keys keeps its
    /// place and gets the new replacement. Without keys nothing is
    /// registered.
    pub fn add_key_path(&mut self, keys: &Vec<TokenKey>, clean_word: &str)
        ensures
            final(self).is_case_sensitive() == old(self).is_case_sensitive(),
            final(self)@ == with_path(old(self)@, path_of(keys@), clean_word@),
    {
        proof {
            use_type_invariant(&*self);
        }
        if keys.len() == 0 {
            return ;
        }
        // the trie is taken out while it grows, and an empty one stands in
        let mut trie = Trie::new();
        std::mem::swap(&mut trie, &mut self.trie);
        trie.insert(keys, clean_word.to_owned());
        self.trie = trie;
    }

    /// Registers `word` as a keyword that stands for itself.
    pub fn add_keyword(&mut self, word: &str)
        ensures
            final(self).is_case_sensitive() == old(self).is_case_sensitive(),
            final(self)@ == with_keyword(old(self)@, old(self).is_case_sensitive(), word@, word@),
    {
        self.add_keyword_with_clean_word(word, word);
    }

    /// Registers `word` as a keyword with the replacement `clean_word`.
    ///
    /// A keyword that was registered before, under the keys of the same
    /// tokens, keeps its place and gets the new replacement. The empty word
    /// has no tokens and is not registered.
    pub fn add_keyword_with_clean_word(&mut self, word: &str, clean_word: &str)
        ensures
            final(self).is_case_sensitive() == old(self).is_case_sensitive(),
            final(self)@ == with_keyword(
                old(self)@,
                old(self).is_case_sensitive(),
                word@,
                clean_word@,
            ),
    {
        let tokens = split_word_bound_indices(word);
        let keys = token_keys(self.case_sensitive, &tokens);
        proof {
            let pieces = token_texts(tokens@);
            if pieces.len() == 0 {
                assert(pieces.flatten() =~= Seq::<char>::empty());
            } else {
                assert(pieces.first() == tokens@[0].1@);
                assert(pieces.flatten() == pieces.first() + pieces.drop_first().flatten());
            }
        }
        self.add_key_path(&keys, clean_word);
    }

    /// Registers each of `words` as a keyword that stands for itself, in
    /// the order given.
    pub fn add_keywords_from_iter(&mut self, words: &[&str])
        ensures
            final(self).is_case_sensitive() == old(self).is_case_sensitive(),
            final(self)@ == with_keywords(
                old(self)@,
                old(self).is_case_sensitive(),
                plain_pairs(words@),
            ),
    {
        let mut i: usize = 0;
        while i < words.len()
            invariant
                i <= words.len(),
                self.is_case_sensitive() == old(self).is_case_sensitive(),
                self@ == with_keywords(
                    old(self)@,
                    old(self).is_case_sensitive(),
                    plain_pairs(words@).take(i as int),
                ),
            decreases words.len() - i,
        {
            self.add_keyword(words[i]);
            proof {
                let done = plain_pairs(words@).take(i as int + 1);
                assert(done.drop_last() =~= plain_pairs(words@).take(i as int));
            }
            i = i + 1;
        }
        proof {
            assert(plain_pairs(words@).take(i as int) =~= plain_pairs(words@));
        }
    }

    /// Registers the first of each pair as a keyword with the second as its
    /// replacement, in the order given.
    pub fn add_keywords_with_clean_word_from_iter(&mut self, pairs: &[(&str, &str)])
        ensures
            final(self).is_case_sensitive() == old(self).is_case_sensitive(),
            final(self)@ == with_keywords(
                old(self)@,
                old(self).is_case_sensitive(),
                clean_pairs(pairs@),
            ),
    {
        let mut i: usize = 0;
        while i < pairs.len()
            invariant
                i <= pairs.len(),
                self.is_case_sensitive() == old(self).is_case_sensitive(),
                self@ == with_keywords(
                    old(self)@,
                    old(self).is_case_sensitive(),
                    clean_pairs(pairs@).take(i as int),
                ),
            decreases pairs.len() - i,
        {
            self.add_keyword_with_clean_word(pairs[i].0, pairs[i].1);
            proof {
                let done = clean_pairs(pairs@).take(i as int + 1);
                assert(done.drop_last() =~= clean_pairs(pairs@).take(i as int));
            }
            i = i + 1;
        }
        proof {
            assert(clean_pairs(pairs@).take(i as int) =~= clean_pairs(pairs@));
        }
    }
}

} // verus!
