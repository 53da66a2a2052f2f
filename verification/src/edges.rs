//! The edges that leave one trie node: a hash map from token key to the index
//! of the child node.

use fxhash::FxHashMap;
use vstd::prelude::*;

verus! {

/// The hasher of `fxhash`, `FxHasher`: opaque, nothing is claimed of it.
#[verifier::external_type_specification]
#[verifier::external_body]
pub struct ExFxHasher(fxhash::FxHasher);

/// `BuildHasherDefault` of std, which makes the hashers of an `FxHashMap`:
/// opaque, nothing is claimed of it.
#[verifier::external_type_specification]
#[verifier::external_body]
#[verifier::reject_recursive_types(H)]
pub struct ExBuildHasherDefault<H>(std::hash::BuildHasherDefault<H>);

/// What an edge map holds: for each key, the child it leads to.
pub uninterp spec fn edges(m: FxHashMap<String, usize>) -> Map<Seq<char>, usize>;

/// Calls `FxHashMap::default`: a hash map of std with the hasher of `fxhash`.
///
/// Trusted: the new map holds nothing.
#[verifier::external_body]
pub(crate) fn edges_new() -> (fresh: FxHashMap<String, usize>)
    ensures
        edges(fresh).dom() == Set::<Seq<char>>::empty(),
{
    FxHashMap::default()
}

/// Calls `HashMap::get` on a map hashed by `fxhash`.
///
/// Trusted: the result is the child stored under `key`, if there is one.
#[verifier::external_body]
pub(crate) fn edges_get(m: &FxHashMap<String, usize>, key: &str) -> (child: Option<usize>)
    ensures
        child == (if edges(*m).contains_key(key@) {
            Some(edges(*m)[key@])
        } else {
            None
        }),
{
    m.get(key).copied()
}

/// Calls `HashMap::insert` on a map hashed by `fxhash`.
///
/// Trusted: afterwards `key` leads to `child` and every other key is as it
/// was.
#[verifier::external_body]
pub(crate) fn edges_insert(m: &mut FxHashMap<String, usize>, key: String, child: usize)
    ensures
        edges(*final(m)) == edges(*old(m)).insert(key@, child),
{
    m.insert(key, child);
}

} // verus!
