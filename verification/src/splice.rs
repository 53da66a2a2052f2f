//! Splicing: a text with stretches of it exchanged for other bytes.

use crate::scan::{keyword_spans, ordered, Span};
use crate::vocabulary::Keywords;
use vstd::prelude::*;
use vstd::utf8::*;

verus! {

/// A stretch of bytes to put in place of the bytes of a text between two
/// offsets.
pub type Cut = (Seq<u8>, int, int);

/// The bytes of `text` from the offset `from` on, with the bytes of each cut
/// in place of what lies between its offsets. What lies outside the cuts
/// stays as it is.
pub open spec fn splice(text: Seq<u8>, cuts: Seq<Cut>, from: int) -> Seq<u8>
    decreases cuts.len(),
{
    if cuts.len() == 0 {
        text.subrange(from, text.len() as int)
    } else {
        text.subrange(from, cuts[0].1) + cuts[0].0 + splice(text, cuts.drop_first(), cuts[0].2)
    }
}

/// The cuts that put the replacement text of each span in its place.
pub open spec fn replacement_cuts(spans: Seq<Span>) -> Seq<Cut> {
    Seq::new(spans.len(), |i: int| (encode_utf8(spans[i].0), spans[i].1, spans[i].2))
}

/// The cuts that put back, in the place of each span, what the text holds
/// there.
pub open spec fn verbatim_cuts(text: Seq<u8>, spans: Seq<Span>) -> Seq<Cut> {
    Seq::new(spans.len(), |i: int| (text.subrange(spans[i].1, spans[i].2), spans[i].1, spans[i].2))
}

/// The bytes of `text` after replacement: what lies between the matches is
/// kept, and each match gives way to the replacement of its keyword.
pub open spec fn replaced_bytes(kw: Keywords, case_sensitive: bool, text: Seq<char>) -> Seq<u8> {
    splice(encode_utf8(text), replacement_cuts(keyword_spans(kw, case_sensitive, text)), 0)
}

/// The stretches between spans that are in order, and the stretches that
/// the spans cover, make up the text: nothing is lost and nothing is
/// counted twice.
pub proof fn lemma_spans_cover_text(text: Seq<u8>, spans: Seq<Span>, from: int)
    requires
        0 <= from,
        ordered(spans, from, text.len() as int),
    ensures
        splice(text, verbatim_cuts(text, spans), from) == text.subrange(from, text.len() as int),
    decreases spans.len(),
{
    if spans.len() > 0 {
        let cuts = verbatim_cuts(text, spans);
        assert(cuts.drop_first() =~= verbatim_cuts(text, spans.drop_first()));
        lemma_spans_cover_text(text, spans.drop_first(), spans[0].2);
        lemma_ordered_ends(spans.drop_first(), spans[0].2, text.len() as int);
        assert(text.subrange(from, spans[0].1) + text.subrange(spans[0].1, spans[0].2)
            + text.subrange(spans[0].2, text.len() as int) =~= text.subrange(
            from,
            text.len() as int,
        ));
    }
}

/// Spans in order between two offsets leave the first offset no later than
/// the second.
pub proof fn lemma_ordered_ends(spans: Seq<Span>, from: int, to: int)
    requires
        ordered(spans, from, to),
    ensures
        from <= to,
    decreases spans.len(),
{
    if spans.len() > 0 {
        lemma_ordered_ends(spans.drop_first(), spans[0].2, to);
    }
}

} // verus!
