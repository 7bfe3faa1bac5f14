//! Stemming: each token is replaced by its stem under the Snowball
//! algorithm of its language. The pipeline does not stem; this stands on
//! its own for callers that want it.

use crate::language::Language;
use vstd::prelude::*;

verus! {

/// The Snowball algorithms in use.
#[derive(Clone, Copy, Debug, PartialEq, Eq, Structural)]
pub enum Algorithm {
    English,
    Spanish,
}

/// The stem that `rust_stemmers` gives a word under an algorithm.
pub uninterp spec fn stem_of(algorithm: Algorithm, word: Seq<char>) -> Seq<char>;

/// The algorithm for a language. A language without one of its own is
/// stemmed as English.
pub open spec fn algorithm_for(language: Language) -> Algorithm {
    match language {
        Language::Spanish => Algorithm::Spanish,
        Language::English | Language::Other => Algorithm::English,
    }
}

/// The stem of each token, in place of the token.
pub open spec fn stems_of(algorithm: Algorithm, tokens: Seq<Seq<char>>) -> Seq<Seq<char>> {
    tokens.map_values(|token: Seq<char>| stem_of(algorithm, token))
}

/// Calls `Stemmer::create` for the algorithm and `Stemmer::stem` on the
/// word, and copies the stem. Trusted: the stem is the one that `stem_of`
/// names, a function of the algorithm and the word alone.
#[verifier::external_body]
fn stem_word(algorithm: Algorithm, word: &str) -> (stem: String)
    ensures
        stem@ == stem_of(algorithm, word@),
{
    let snowball = match algorithm {
        Algorithm::English => rust_stemmers::Algorithm::English,
        Algorithm::Spanish => rust_stemmers::Algorithm::Spanish,
    };
    rust_stemmers::Stemmer::create(snowball).stem(word).into_owned()
}

/// Picks the algorithm for a language.
pub fn choose_algorithm(language: Language) -> (algorithm: Algorithm)
    ensures
        algorithm == algorithm_for(language),
{
    match language {
        Language::Spanish => Algorithm::Spanish,
        Language::English | Language::Other => Algorithm::English,
    }
}

/// Replaces each token by its stem under the algorithm of the language.
pub fn stem_tokens(tokens: Vec<String>, language: Language) -> (stems: Vec<String>)
    ensures
        stems.deep_view() == stems_of(algorithm_for(language), tokens.deep_view()),
{
    let algorithm = choose_algorithm(language);
    let ghost all = tokens.deep_view();
    let mut stems: Vec<String> = Vec::new();
    for token in it: tokens
        invariant
            it.seq().len() == all.len(),
            forall|i: int| 0 <= i < all.len() ==> (#[trigger] it.seq()[i])@ == all[i],
            stems.len() == it.index(),
            forall|i: int|
                0 <= i < it.index() ==> (#[trigger] stems[i])@ == stem_of(algorithm, all[i]),
    {
        stems.push(stem_word(algorithm, token.as_str()));
    }
    proof {
        assert(stems.deep_view() =~= stems_of(algorithm, all));
    }
    stems
}

} // verus!
