//! Token keys: what a trie edge is labelled with, under either case policy.

use crate::tokens::token_texts;
use vstd::prelude::*;

verus! {

/// The Unicode case folding of `token`, as `unicase` computes it.
pub uninterp spec fn folded_case(token: Seq<char>) -> Seq<char>;

/// Calls `UniCase::new` and `UniCase::to_folded_case` of `unicase`.
///
/// Trusted: the result is the named folding [`folded_case`] of `token`.
///
/// The trie files a token under its folding because two tokens have the same
/// folding exactly when `UniCase` holds them equal.
#[verifier::external_body]
pub(crate) fn to_folded_case(token: &str) -> (key: String)
    ensures
        key@ == folded_case(token@),
{
    unicase::UniCase::new(token).to_folded_case()
}

/// The key under which a token is filed: the token itself where case counts,
/// its case folding where it does not.
pub open spec fn key_of(case_sensitive: bool, token: Seq<char>) -> Seq<char> {
    if case_sensitive {
        token
    } else {
        folded_case(token)
    }
}

/// The keys of a sequence of token texts.
pub open spec fn keys_of(case_sensitive: bool, pieces: Seq<Seq<char>>) -> Seq<Seq<char>> {
    Seq::new(pieces.len(), |i: int| key_of(case_sensitive, pieces[i]))
}

/// The key of one token: the token as it stands in the text, or its folding.
pub enum TokenKey<'a> {
    /// The token itself, for a vocabulary in which case counts.
    Exact(&'a str),
    /// The case folding of the token.
    Folded(String),
}

impl<'a> View for TokenKey<'a> {
    type V = Seq<char>;

    open spec fn view(&self) -> Seq<char> {
        match self {
            TokenKey::Exact(token) => token@,
            TokenKey::Folded(folded) => folded@,
        }
    }
}

impl<'a> TokenKey<'a> {
    /// The key of `token` under the given case policy.
    pub fn new(case_sensitive: bool, token: &'a str) -> (key: Self)
        ensures
            key@ == key_of(case_sensitive, token@),
    {
        if case_sensitive {
            TokenKey::Exact(token)
        } else {
            TokenKey::Folded(to_folded_case(token))
        }
    }

    /// The text of the key.
    pub fn as_str(&self) -> (text: &str)
        ensures
            text@ == self@,
    {
        match self {
            TokenKey::Exact(token) => token,
            TokenKey::Folded(folded) => folded.as_str(),
        }
    }
}

/// The path that a sequence of keys spells.
pub open spec fn path_of(keys: Seq<TokenKey>) -> Seq<Seq<char>> {
    Seq::new(keys.len(), |i: int| keys[i]@)
}

/// The key of each of `tokens` under the given case policy.
pub fn token_keys<'a>(case_sensitive: bool, tokens: &Vec<(usize, &'a str)>) -> (keys: Vec<
    TokenKey<'a>,
>)
    ensures
        keys@.len() == tokens@.len(),
        path_of(keys@) == keys_of(case_sensitive, token_texts(tokens@)),
{
    let mut keys: Vec<TokenKey<'a>> = Vec::new();
    let mut i: usize = 0;
    while i < tokens.len()
        invariant
            i <= tokens.len(),
            keys@.len() == i,
            forall|j: int|
                0 <= j < i ==> (#[trigger] keys@[j])@ == key_of(case_sensitive, tokens@[j].1@),
        decreases tokens.len() - i,
    {
        keys.push(TokenKey::new(case_sensitive, tokens[i].1));
        i = i + 1;
    }
    proof {
        assert(path_of(keys@) =~= keys_of(case_sensitive, token_texts(tokens@)));
    }
    keys
}

} // verus!
