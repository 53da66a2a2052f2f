//! The mathematical model of a vocabulary: a finite map from key paths to
//! replacement texts.

use vstd::prelude::*;

verus! {

/// A keyword as the trie sees it: the keys of its tokens, in order.
pub type Path = Seq<Seq<char>>;

/// A vocabulary: each registered key path with its replacement text.
pub type Keywords = Map<Seq<Seq<char>>, Seq<char>>;

/// The vocabulary without any keyword.
pub open spec fn no_keywords() -> Keywords {
    Map::empty()
}

/// Some registered keyword starts with `p`. These are the paths along which
/// the trie has nodes.
pub open spec fn has_prefix(kw: Keywords, p: Path) -> bool {
    exists|k: Path| #[trigger] kw.dom().contains(k) && p.is_prefix_of(k)
}

} // verus!
