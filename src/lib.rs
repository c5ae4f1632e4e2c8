//! Candidate filtering and ranking for a five-letter word-guessing game.
use vstd::prelude::*;

pub mod constraints;
pub mod ranking;

use crate::constraints::{filter_words, survivors, Word};
use crate::ranking::{rank, ranked};

verus! {

/// The words of `words` that agree with everything `word` knows, ranked:
/// words with more different letters first, equal counts in list order.
pub fn candidates(words: &Vec<String>, word: &Word) -> (r: Vec<String>)
    requires
        word.wf(),
    ensures
        r@ == ranked(survivors(*word, words@)),
{
    let kept = filter_words(words, word);
    rank(&kept)
}
} // verus!
