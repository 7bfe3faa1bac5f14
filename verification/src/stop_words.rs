//! Stop-word removal: tokens that equal an entry of a language's stop-word
//! list are dropped; every other token stays, in its place.

use crate::language::Language;
use vstd::prelude::*;

verus! {

/// The stop words that the `stop_words` crate lists under a language code.
pub uninterp spec fn stop_word_list(code: Seq<char>) -> Seq<Seq<char>>;

/// The code under which a language's stop words are listed. A language
/// without a list of its own uses the English one.
pub open spec fn stop_word_code(language: Language) -> Seq<char> {
    match language {
        Language::Spanish => "es"@,
        Language::English | Language::Other => "en"@,
    }
}

/// The tokens that no entry of `stops` equals, in their order. The match is
/// exact: case counts, and an inflected form of a stop word stays.
pub open spec fn unlisted(tokens: Seq<Seq<char>>, stops: Seq<Seq<char>>) -> Seq<Seq<char>> {
    tokens.filter(|token: Seq<char>| !stops.contains(token))
}

/// Calls `stop_words::get` with a language code. Trusted: the list is the
/// one that `stop_word_list` names, a function of the code alone. The crate
/// panics on a code it has no list for; it has one for each of the two
/// codes admitted here.
#[verifier::external_body]
fn stop_words_for(code: &str) -> (words: Vec<String>)
    requires
        code@ == "en"@ || code@ == "es"@,
    ensures
        words.deep_view() == stop_word_list(code@),
{
    ::stop_words::get(code)
}

/// Whether some entry of `words` equals `word`.
pub fn contains_word(words: &Vec<String>, word: &String) -> (found: bool)
    ensures
        found == words.deep_view().contains(word@),
{
    let mut i: usize = 0;
    while i < words.len()
        invariant
            i <= words.len(),
            forall|j: int| 0 <= j < i ==> words.deep_view()[j] != word@,
        decreases words.len() - i,
    {
        if words[i] == *word {
            assert(words.deep_view()[i as int] == word@);
            return true;
        }
        i += 1;
    }
    false
}

/// Keeps the tokens that `stops` does not list.
pub fn retain_unlisted(tokens: Vec<String>, stops: &Vec<String>) -> (kept: Vec<String>)
    ensures
        kept.deep_view() == unlisted(tokens.deep_view(), stops.deep_view()),
        forall|i: int|
            0 <= i < kept.len() ==> !stops.deep_view().contains(#[trigger] kept.deep_view()[i]),
{
    let ghost all = tokens.deep_view();
    let mut kept: Vec<String> = Vec::new();
    for token in it: tokens
        invariant
            it.seq().len() == all.len(),
            forall|i: int| 0 <= i < all.len() ==> (#[trigger] it.seq()[i])@ == all[i],
            kept.deep_view() == unlisted(all.take(it.index()), stops.deep_view()),
    {
        let ghost before = kept.deep_view();
        proof {
            all.take(it.index()).lemma_filter_push(
                token@,
                |token: Seq<char>| !stops.deep_view().contains(token),
            );
            assert(all.take(it.index() + 1) == all.take(it.index()).push(token@));
        }
        if !contains_word(stops, &token) {
            kept.push(token);
            assert(kept.deep_view() == before.push(token@));
        }
    }
    proof {
        assert(all.take(all.len() as int) == all);
        lemma_unlisted_holds_no_stop_word(all, stops.deep_view());
    }
    kept
}

/// Drops the stop words of `language` from the tokens.
pub fn filter_stop_words(tokens: Vec<String>, language: Language) -> (kept: Vec<String>)
    ensures
        kept.deep_view() == unlisted(tokens.deep_view(), stop_word_list(stop_word_code(language))),
        forall|i: int|
            0 <= i < kept.len() ==> !stop_word_list(stop_word_code(language)).contains(
                #[trigger] kept.deep_view()[i],
            ),
{
    let stops = match language {
        Language::Spanish => stop_words_for("es"),
        Language::English | Language::Other => stop_words_for("en"),
    };
    retain_unlisted(tokens, &stops)
}

/// Drops the English stop words from the tokens.
pub fn remove_stop_words(tokens: Vec<String>) -> (kept: Vec<String>)
    ensures
        kept.deep_view() == unlisted(tokens.deep_view(), stop_word_list("en"@)),
        forall|i: int|
            0 <= i < kept.len() ==> !stop_word_list("en"@).contains(#[trigger] kept.deep_view()[i]),
{
    filter_stop_words(tokens, Language::English)
}

/// What is left holds no entry of `stops`.
pub proof fn lemma_unlisted_holds_no_stop_word(tokens: Seq<Seq<char>>, stops: Seq<Seq<char>>)
    ensures
        forall|i: int|
            0 <= i < unlisted(tokens, stops).len() ==> !stops.contains(
                #[trigger] unlisted(tokens, stops)[i],
            ),
{
    let unlisted_one = |token: Seq<char>| !stops.contains(token);
    assert forall|i: int| 0 <= i < unlisted(tokens, stops).len() implies !stops.contains(
        #[trigger] unlisted(tokens, stops)[i],
    ) by {
        tokens.lemma_filter_pred(unlisted_one, i);
    }
}

/// Of tokens that are all stop words, nothing is left.
pub proof fn lemma_stop_words_all_leave(tokens: Seq<Seq<char>>, stops: Seq<Seq<char>>)
    requires
        forall|i: int| 0 <= i < tokens.len() ==> stops.contains(#[trigger] tokens[i]),
    ensures
        unlisted(tokens, stops) == Seq::<Seq<char>>::empty(),
    decreases tokens.len(),
{
    reveal(Seq::filter);
    if tokens.len() > 0 {
        lemma_stop_words_all_leave(tokens.drop_last(), stops);
    }
}

/// Of tokens that are stop words but for one, that one is left alone.
pub proof fn lemma_one_content_word_is_left(
    tokens: Seq<Seq<char>>,
    stops: Seq<Seq<char>>,
    k: int,
)
    requires
        0 <= k < tokens.len(),
        !stops.contains(tokens[k]),
        forall|i: int| 0 <= i < tokens.len() && i != k ==> stops.contains(#[trigger] tokens[i]),
    ensures
        unlisted(tokens, stops) == seq![tokens[k]],
    decreases tokens.len(),
{
    reveal(Seq::filter);
    let rest = tokens.drop_last();
    if k == tokens.len() - 1 {
        lemma_stop_words_all_leave(rest, stops);
        assert(unlisted(tokens, stops) =~= seq![tokens[k]]);
    } else {
        assert(stops.contains(tokens[tokens.len() - 1]));
        lemma_one_content_word_is_left(rest, stops, k);
    }
}

} // verus!
