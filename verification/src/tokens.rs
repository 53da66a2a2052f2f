//! Tokens: the pieces between Unicode word boundaries, with their byte offsets.

use unicode_segmentation::UnicodeSegmentation;
use vstd::prelude::*;
use vstd::utf8::*;

verus! {

/// The pieces into which the Unicode word boundaries of `text` split it, in
/// order of appearance.
pub uninterp spec fn word_bounds(text: Seq<char>) -> Seq<Seq<char>>;

/// The number of bytes that `s` takes in UTF-8.
pub open spec fn byte_len(s: Seq<char>) -> nat {
    encode_utf8(s).len()
}

/// The byte offset at which piece `i` starts when `pieces` are laid end to
/// end. For `i == pieces.len()` this is the byte length of the whole text.
pub open spec fn offset_of(pieces: Seq<Seq<char>>, i: int) -> nat {
    byte_len(pieces.take(i).flatten())
}

/// The texts of a sequence of tokens, without their offsets.
pub open spec fn token_texts(tokens: Seq<(usize, &str)>) -> Seq<Seq<char>> {
    Seq::new(tokens.len(), |i: int| tokens[i].1@)
}

/// No token is empty, and each is labelled with the byte offset at which it
/// starts when the tokens are laid end to end.
pub open spec fn laid_out(tokens: Seq<(usize, &str)>) -> bool {
    forall|i: int|
        0 <= i < tokens.len() ==> {
            &&& (#[trigger] tokens[i]).1@.len() > 0
            &&& tokens[i].0 as int == offset_of(token_texts(tokens), i)
        }
}

/// `tokens` cut `text` into consecutive pieces that are not empty, each
/// labelled with the byte offset at which it starts.
pub open spec fn tokenizes(tokens: Seq<(usize, &str)>, text: Seq<char>) -> bool {
    &&& token_texts(tokens).flatten() == text
    &&& laid_out(tokens)
}

/// The UTF-8 encoding of two texts laid end to end is the two encodings laid
/// end to end.
pub proof fn lemma_encode_concat(a: Seq<char>, b: Seq<char>)
    ensures
        encode_utf8(a + b) == encode_utf8(a) + encode_utf8(b),
    decreases a.len(),
{
    if a.len() == 0 {
        assert(a + b =~= b);
        assert(encode_utf8(a) + encode_utf8(b) =~= encode_utf8(b));
    } else {
        let head = encode_scalar(a[0] as u32);
        assert((a + b).drop_first() =~= a.drop_first() + b);
        lemma_encode_concat(a.drop_first(), b);
        assert(head + (encode_utf8(a.drop_first()) + encode_utf8(b)) =~= (head + encode_utf8(
            a.drop_first(),
        )) + encode_utf8(b));
    }
}

/// Piece `i + 1` starts where piece `i` ends.
pub proof fn lemma_offset_step(pieces: Seq<Seq<char>>, i: int)
    requires
        0 <= i < pieces.len(),
    ensures
        offset_of(pieces, i + 1) == offset_of(pieces, i) + byte_len(pieces[i]),
{
    assert(pieces.take(i + 1) =~= pieces.take(i).push(pieces[i]));
    pieces.take(i).lemma_flatten_push(pieces[i]);
    lemma_encode_concat(pieces.take(i).flatten(), pieces[i]);
}

/// Later pieces start at later offsets, and none beyond the end of the text.
pub proof fn lemma_offset_monotone(pieces: Seq<Seq<char>>, i: int, j: int)
    requires
        0 <= i <= j <= pieces.len(),
    ensures
        offset_of(pieces, i) <= offset_of(pieces, j) <= byte_len(pieces.flatten()),
    decreases pieces.len() - i,
{
    assert(pieces.take(pieces.len() as int) =~= pieces);
    if i < j {
        lemma_offset_step(pieces, i);
        lemma_offset_monotone(pieces, i + 1, j);
    } else if j < pieces.len() {
        lemma_offset_step(pieces, j);
        lemma_offset_monotone(pieces, j + 1, pieces.len() as int);
    }
}

/// A text that is not empty takes at least one byte.
pub proof fn lemma_byte_len_positive(s: Seq<char>)
    requires
        s.len() > 0,
    ensures
        byte_len(s) > 0,
{
    assert(encode_scalar(s[0] as u32).len() > 0);
}

/// Where no piece is empty, a later piece starts at a later offset.
pub proof fn lemma_offsets_increase(pieces: Seq<Seq<char>>, i: int, j: int)
    requires
        0 <= i < j <= pieces.len(),
        forall|k: int| 0 <= k < pieces.len() ==> (#[trigger] pieces[k]).len() > 0,
    ensures
        offset_of(pieces, i) < offset_of(pieces, j),
{
    lemma_offset_step(pieces, i);
    lemma_byte_len_positive(pieces[i]);
    lemma_offset_monotone(pieces, i + 1, j);
}

/// Calls `split_word_bound_indices` of `unicode_segmentation`.
///
/// Trusted: the texts of the returned tokens are the named pieces
/// [`word_bounds`] of `text`; they are non-empty substrings that follow one
/// another and together make up `text`, and each comes with the byte offset
/// at which it starts.
#[verifier::external_body]
pub(crate) fn split_word_bound_indices<'a>(text: &'a str) -> (tokens: Vec<(usize, &'a str)>)
    ensures
        token_texts(tokens@) == word_bounds(text@),
        tokenizes(tokens@, text@),
{
    text.split_word_bound_indices().collect()
}

} // verus!
