//! The pipeline from a raw text to its terms and to its processed form.

use crate::stop_words::{remove_stop_words, stop_word_list, unlisted};
use crate::text::{is_wanted, normal_form, normalize};
use crate::tokens::{tokenize, tokens_of};
use vstd::prelude::*;
use vstd::string::StringExecFns;

verus! {

/// The parts, with the separator between each two neighbours.
pub open spec fn joined(parts: Seq<Seq<char>>, separator: Seq<char>) -> Seq<char>
    decreases parts.len(),
{
    if parts.len() == 0 {
        Seq::empty()
    } else if parts.len() == 1 {
        parts[0]
    } else {
        joined(parts.drop_last(), separator) + separator + parts.last()
    }
}

/// The terms of a text: the tokens of its normal form that are not English
/// stop words, in their order and with their repetitions.
pub open spec fn terms_of(text: Seq<char>) -> Seq<Seq<char>> {
    unlisted(tokens_of(normal_form(text)), stop_word_list("en"@))
}

/// Concatenates the parts, with the separator between each two neighbours.
pub fn join(parts: &Vec<String>, separator: &str) -> (whole: String)
    ensures
        whole@ == joined(parts.deep_view(), separator@),
{
    let mut whole = String::new();
    let mut i: usize = 0;
    while i < parts.len()
        invariant
            i <= parts.len(),
            whole@ == joined(parts.deep_view().take(i as int), separator@),
        decreases parts.len() - i,
    {
        proof {
            let next = parts.deep_view().take(i + 1);
            assert(next.drop_last() == parts.deep_view().take(i as int));
            assert(next.last() == parts[i as int]@);
        }
        if i > 0 {
            whole.append(separator);
        }
        whole.append(parts[i].as_str());
        i += 1;
    }
    proof {
        assert(parts.deep_view().take(parts.len() as int) == parts.deep_view());
    }
    whole
}

/// Every character of every term is alphanumeric or whitespace.
pub open spec fn all_wanted(terms: Seq<Seq<char>>) -> bool {
    forall|i: int, j: int|
        0 <= i < terms.len() && 0 <= j < terms[i].len() ==> is_wanted(#[trigger] terms[i][j])
}

/// The terms of a text, ready for indexing. No term is an English stop
/// word, and none holds a character that normalizing would drop.
pub fn terms(text: &str) -> (found: Vec<String>)
    ensures
        found.deep_view() == terms_of(text@),
        all_wanted(found.deep_view()),
        forall|i: int|
            0 <= i < found.len() ==> !stop_word_list("en"@).contains(
                #[trigger] found.deep_view()[i],
            ),
{
    let normal = normalize(text);
    let tokens = tokenize(normal.as_str());
    let ghost pieces = tokens.deep_view();
    let found = remove_stop_words(tokens);
    proof {
        let kept = found.deep_view();
        assert forall|i: int, j: int| 0 <= i < kept.len() && 0 <= j < kept[i].len() implies is_wanted(
            #[trigger] kept[i][j],
        ) by {
            assert(kept.contains(kept[i]));
            pieces.lemma_filter_contains_rev(
                |token: Seq<char>| !stop_word_list("en"@).contains(token),
                kept[i],
            );
            let k = choose|k: int| 0 <= k < pieces.len() && pieces[k] == kept[i];
            assert(normal@.contains(pieces[k][j]));
        }
    }
    found
}

/// The processed form of a text: its terms, joined by single spaces.
pub fn process_text(text: &str) -> (processed: String)
    ensures
        processed@ == joined(terms_of(text@), " "@),
{
    let found = terms(text);
    join(&found, " ")
}

} // verus!
