//! A first-order (bigram) Markov chain over whitespace-delimited words:
//! words are interned to stable indices, transitions are counted as weighted
//! edges, and sentences are generated by a weighted random walk that stops at
//! a terminator word (one ending in `.`) or at a dead end.

use vstd::prelude::*;

pub mod chain;
pub mod codec;
pub mod iter;
pub mod laws;
pub mod node;
mod outside;
pub mod text;

pub use chain::Chain;
pub use chain::GenerateError;
pub use codec::DecodeError;
pub use iter::ChainIterator;
pub use node::Node;

verus! {

/// A word ends a sentence exactly when its last character is `.`.
pub open spec fn spec_is_sentence_end(w: Seq<char>) -> bool {
    w.len() > 0 && w[w.len() - 1] == '.'
}

/// Whether a word is a sentence terminator, i.e. ends with a literal `.`.
pub fn is_sentence_end(word: &str) -> (r: bool)
    ensures
        r == spec_is_sentence_end(word@),
{
    let n = word.unicode_len();
    if n == 0 {
        false
    } else {
        word.get_char(n - 1) == '.'
    }
}

} // verus!
