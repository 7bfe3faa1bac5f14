//! Character classes and the normal form of a text: lowercase, with every
//! character that is neither alphanumeric nor whitespace dropped.

use vstd::prelude::*;

verus! {

/// What `char::is_alphanumeric` answers for `c`.
pub uninterp spec fn is_alphanumeric_char(c: char) -> bool;

/// What `char::is_whitespace` answers for `c`.
pub uninterp spec fn is_whitespace_char(c: char) -> bool;

/// What `str::to_lowercase` returns for the text `s`.
pub uninterp spec fn lowercase_of(s: Seq<char>) -> Seq<char>;

/// A character survives cleaning when it is alphanumeric or whitespace.
pub open spec fn is_wanted(c: char) -> bool {
    is_alphanumeric_char(c) || is_whitespace_char(c)
}

/// The wanted characters of `s`, in their order. Nothing stands in for a
/// dropped character, so words that only punctuation kept apart run together.
pub open spec fn wanted_chars(s: Seq<char>) -> Seq<char> {
    s.filter(|c: char| is_wanted(c))
}

/// The normal form of a text: its lowercase form, cleaned.
pub open spec fn normal_form(s: Seq<char>) -> Seq<char> {
    wanted_chars(lowercase_of(s))
}

/// Calls `char::is_alphanumeric`. Trusted: the answer is the one that
/// `is_alphanumeric_char` names.
#[verifier::external_body]
pub(crate) fn char_is_alphanumeric(c: char) -> (b: bool)
    ensures
        b == is_alphanumeric_char(c),
{
    c.is_alphanumeric()
}

/// Calls `char::is_whitespace`. Trusted: the answer is the one that
/// `is_whitespace_char` names.
#[verifier::external_body]
pub(crate) fn char_is_whitespace(c: char) -> (b: bool)
    ensures
        b == is_whitespace_char(c),
{
    c.is_whitespace()
}

/// Calls `str::to_lowercase`. Trusted: the new string is the one that
/// `lowercase_of` names, a function of the text alone.
#[verifier::external_body]
pub(crate) fn to_lowercase(text: &str) -> (lowered: String)
    ensures
        lowered@ == lowercase_of(text@),
{
    text.to_lowercase()
}

/// `String::push`. Trusted: the character is appended at the end and the
/// rest of the string stays as it was.
pub assume_specification[ String::push ](s: &mut String, ch: char)
    ensures
        final(s)@ == old(s)@.push(ch),
;

/// Whether `c` is kept by cleaning.
pub fn keeps(c: char) -> (kept: bool)
    ensures
        kept == is_wanted(c),
{
    char_is_alphanumeric(c) || char_is_whitespace(c)
}

/// Drops every character that is neither alphanumeric nor whitespace and
/// keeps the others in place.
pub fn remove_unwanted_characters(text: &str) -> (cleaned: String)
    ensures
        cleaned@ == wanted_chars(text@),
        forall|i: int| 0 <= i < cleaned@.len() ==> is_wanted(#[trigger] cleaned@[i]),
{
    let mut cleaned = String::new();
    for c in it: text.chars()
        invariant
            it.seq() == text@,
            cleaned@ == wanted_chars(text@.take(it.index())),
    {
        proof {
            text@.take(it.index()).lemma_filter_push(c, |c: char| is_wanted(c));
            assert(text@.take(it.index() + 1) == text@.take(it.index()).push(c));
        }
        if keeps(c) {
            cleaned.push(c);
        }
    }
    proof {
        assert(text@.take(text@.len() as int) == text@);
        lemma_wanted_chars_are_wanted(text@);
    }
    cleaned
}

/// Lowercases the text, then cleans it.
pub fn normalize(text: &str) -> (normal: String)
    ensures
        normal@ == normal_form(text@),
        forall|i: int| 0 <= i < normal@.len() ==> is_wanted(#[trigger] normal@[i]),
{
    let lowered = to_lowercase(text);
    remove_unwanted_characters(lowered.as_str())
}

/// Every character that cleaning leaves is alphanumeric or whitespace.
pub proof fn lemma_wanted_chars_are_wanted(s: Seq<char>)
    ensures
        forall|i: int| 0 <= i < wanted_chars(s).len() ==> is_wanted(#[trigger] wanted_chars(s)[i]),
{
    let wanted = |c: char| is_wanted(c);
    assert forall|i: int| 0 <= i < wanted_chars(s).len() implies is_wanted(
        #[trigger] wanted_chars(s)[i],
    ) by {
        s.lemma_filter_pred(wanted, i);
    }
}

/// Cleaning leaves a text of wanted characters as it is.
pub proof fn lemma_wanted_chars_fixes_clean(s: Seq<char>)
    requires
        forall|i: int| 0 <= i < s.len() ==> is_wanted(#[trigger] s[i]),
    ensures
        wanted_chars(s) == s,
    decreases s.len(),
{
    reveal(Seq::filter);
    if s.len() > 0 {
        lemma_wanted_chars_fixes_clean(s.drop_last());
        assert(s.drop_last().push(s.last()) == s);
    }
}

/// Cleaning twice is cleaning once.
pub proof fn lemma_cleaning_is_idempotent(s: Seq<char>)
    ensures
        wanted_chars(wanted_chars(s)) == wanted_chars(s),
{
    lemma_wanted_chars_are_wanted(s);
    lemma_wanted_chars_fixes_clean(wanted_chars(s));
}

/// Normalizing twice is normalizing once, for every text whose normal form
/// lowercasing leaves unchanged.
pub proof fn lemma_normalize_is_idempotent(s: Seq<char>)
    ensures
        lowercase_of(normal_form(s)) == normal_form(s) ==> normal_form(normal_form(s))
            == normal_form(s),
{
    lemma_cleaning_is_idempotent(lowercase_of(s));
}

} // verus!
