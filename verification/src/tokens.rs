//! Token counting. Never skipped: the design forbids "it will probably fit".

use vstd::prelude::*;
use crate::text::chars_of;

verus! {

/// Counts the tokens of a text as a model would.
pub trait Tokenizer: Send + Sync {
    /// How many tokens the text takes.
    spec fn tokens(&self, text: Seq<char>) -> nat;

    fn count(&self, text: &str) -> (n: usize)
        ensures
            n == self.tokens(text@),
    ;
}

/// Conservative fallback used when a model reports no tokenizer: one token for
/// every 3.2 characters, and one for what is left. Deliberately over-counts: a
/// digest wrongly rejected costs one retry, a digest wrongly accepted corrupts
/// every downstream node that reads it.
#[derive(Debug, Clone, Copy, PartialEq, Eq)]
pub struct CharRatioTokenizer {}

impl Default for CharRatioTokenizer {
    fn default() -> (t: Self) {
        CharRatioTokenizer {  }
    }
}

/// How many tokens so many characters count for: five for every sixteen, rounded
/// up.
pub open spec fn tokens_for(chars: nat) -> nat {
    (chars * 5 + 15) / 16
}

impl Tokenizer for CharRatioTokenizer {
    open spec fn tokens(&self, text: Seq<char>) -> nat {
        tokens_for(text.len())
    }

    fn count(&self, text: &str) -> (n: usize) {
        let chars = chars_of(text);
        let n: u128 = chars.len() as u128;
        let tokens: u128 = (n * 5 + 15) / 16;
        tokens as usize
    }
}

/// A longer text never counts for less, and no text for more tokens than it has
/// characters.
pub proof fn law_counting_grows_with_the_text(a: nat, b: nat)
    requires
        a <= b,
    ensures
        tokens_for(a) <= tokens_for(b),
        tokens_for(a) <= a,
        tokens_for(a) * 16 >= a * 5,
{
}

/// A text counts as five tokens for every sixteen characters, and what is left over
/// counts as one more at most.
pub proof fn law_sixteen_characters_are_five_tokens(a: nat, n: nat)
    ensures
        tokens_for(16 * n) == 5 * n,
        a * 5 <= tokens_for(a) * 16 < a * 5 + 16,
{
}

} // verus!
