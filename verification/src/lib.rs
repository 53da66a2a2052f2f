//! Keyword extraction and replacement over a token trie.
//!
//! A [`KeywordProcessor`] holds a vocabulary of keywords, each a sequence of
//! word-boundary tokens, in a prefix trie. Scanning a text walks its tokens
//! through the trie and reports the longest keyword at each position, so the
//! cost of a scan follows the length of the text and not the size of the
//! vocabulary.
//!
//! The vocabulary is modelled as a map from key paths to replacement texts
//! ([`vocabulary`]). What a scan reports is stated over that map and the keys
//! of the tokens ([`scan`]), what replacement returns over the spans of the
//! scan ([`splice`]), and [`laws`] holds what follows for every vocabulary
//! and every text. Tokens come from `unicode_segmentation` ([`tokens`]), the
//! case folding of keys from `unicase` ([`keys`]), and the edges of the trie
//! are hash maps with the hasher of `fxhash`.

mod edges;
pub mod extractor;
pub mod keys;
pub mod laws;
pub mod processor;
pub mod replace;
pub mod scan;
pub mod splice;
pub mod tokens;
mod trie;
pub mod vocabulary;

pub use extractor::KeywordExtractor;
pub use processor::KeywordProcessor;
