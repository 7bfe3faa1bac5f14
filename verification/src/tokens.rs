//! Tokens: the units between Unicode word boundaries, without the runs of
//! whitespace that separate them.

use crate::text::{char_is_whitespace, is_whitespace_char};
use unicode_segmentation::UnicodeSegmentation;
use vstd::prelude::*;

verus! {

/// The substrings between the word boundaries of `text`, in order, as
/// `unicode_segmentation` cuts them.
pub uninterp spec fn word_bound_segments(text: Seq<char>) -> Seq<Seq<char>>;

/// A segment that holds whitespace and nothing else.
pub open spec fn is_whitespace_run(segment: Seq<char>) -> bool {
    forall|i: int| 0 <= i < segment.len() ==> is_whitespace_char(#[trigger] segment[i])
}

/// The segments that are not whitespace runs, in their order.
pub open spec fn without_whitespace_runs(segments: Seq<Seq<char>>) -> Seq<Seq<char>> {
    segments.filter(|segment: Seq<char>| !is_whitespace_run(segment))
}

/// The tokens of a text.
pub open spec fn tokens_of(text: Seq<char>) -> Seq<Seq<char>> {
    without_whitespace_runs(word_bound_segments(text))
}

/// Every character of every token is a character of the text.
pub open spec fn drawn_from(tokens: Seq<Seq<char>>, text: Seq<char>) -> bool {
    forall|i: int, j: int|
        0 <= i < tokens.len() && 0 <= j < tokens[i].len() ==> text.contains(#[trigger] tokens[i][j])
}

/// Calls `UnicodeSegmentation::split_word_bounds` and copies each substring
/// it yields. Trusted: the substrings are those that `word_bound_segments`
/// names, a function of the text alone, and put together again they are
/// the text.
#[verifier::external_body]
fn split_word_bounds(text: &str) -> (segments: Vec<String>)
    ensures
        segments.deep_view() == word_bound_segments(text@),
        segments.deep_view().flatten() == text@,
{
    text.split_word_bounds().map(|segment| segment.to_owned()).collect()
}

/// A segment with one more character is a whitespace run when the segment
/// was one and the character is whitespace.
proof fn lemma_whitespace_run_push(segment: Seq<char>, c: char)
    ensures
        is_whitespace_run(segment.push(c)) == (is_whitespace_run(segment) && is_whitespace_char(c)),
{
    let longer = segment.push(c);
    if is_whitespace_run(longer) {
        assert forall|i: int| 0 <= i < segment.len() implies is_whitespace_char(
            #[trigger] segment[i],
        ) by {
            assert(longer[i] == segment[i]);
        }
        assert(longer[segment.len() as int] == c);
    }
}

/// Whether the segment holds nothing but whitespace.
pub fn is_whitespace_only(segment: &str) -> (blank: bool)
    ensures
        blank == is_whitespace_run(segment@),
{
    let mut blank = true;
    for c in it: segment.chars()
        invariant
            it.seq() == segment@,
            blank == is_whitespace_run(segment@.take(it.index())),
    {
        proof {
            lemma_whitespace_run_push(segment@.take(it.index()), c);
            assert(segment@.take(it.index() + 1) == segment@.take(it.index()).push(c));
        }
        if !char_is_whitespace(c) {
            blank = false;
        }
    }
    proof {
        assert(segment@.take(segment@.len() as int) == segment@);
    }
    blank
}

/// Keeps the segments that are not whitespace runs.
pub fn drop_whitespace_runs(segments: Vec<String>) -> (tokens: Vec<String>)
    ensures
        tokens.deep_view() == without_whitespace_runs(segments.deep_view()),
        forall|i: int| 0 <= i < tokens.len() ==> !is_whitespace_run(#[trigger] tokens.deep_view()[i]),
{
    let ghost all = segments.deep_view();
    let mut tokens: Vec<String> = Vec::new();
    for segment in it: segments
        invariant
            it.seq().len() == all.len(),
            forall|i: int| 0 <= i < all.len() ==> (#[trigger] it.seq()[i])@ == all[i],
            tokens.deep_view() == without_whitespace_runs(all.take(it.index())),
    {
        let ghost before = tokens.deep_view();
        proof {
            all.take(it.index()).lemma_filter_push(
                segment@,
                |segment: Seq<char>| !is_whitespace_run(segment),
            );
            assert(all.take(it.index() + 1) == all.take(it.index()).push(segment@));
        }
        if !is_whitespace_only(segment.as_str()) {
            tokens.push(segment);
            assert(tokens.deep_view() == before.push(segment@));
        }
    }
    proof {
        assert(all.take(all.len() as int) == all);
        assert forall|i: int| 0 <= i < tokens.len() implies !is_whitespace_run(
            #[trigger] tokens.deep_view()[i],
        ) by {
            all.lemma_filter_pred(|segment: Seq<char>| !is_whitespace_run(segment), i);
        }
    }
    tokens
}

/// Every character of every part is a character of the parts put together.
pub proof fn lemma_parts_are_within(parts: Seq<Seq<char>>, i: int, j: int)
    requires
        0 <= i < parts.len(),
        0 <= j < parts[i].len(),
    ensures
        parts.flatten().contains(parts[i][j]),
    decreases parts.len(),
{
    let head = parts.first();
    let tail = parts.drop_first();
    let whole = parts.flatten();
    assert(whole == head + tail.flatten());
    if i == 0 {
        assert(whole[j] == parts[i][j]);
    } else {
        lemma_parts_are_within(tail, i - 1, j);
        let k = choose|k: int| 0 <= k < tail.flatten().len() && tail.flatten()[k] == tail[i - 1][j];
        assert(whole[head.len() + k] == parts[i][j]);
    }
}

/// Tokens that were picked out of the parts of a text are drawn from it.
pub proof fn lemma_picked_parts_are_drawn(
    tokens: Seq<Seq<char>>,
    parts: Seq<Seq<char>>,
)
    requires
        forall|i: int| 0 <= i < tokens.len() ==> parts.contains(#[trigger] tokens[i]),
    ensures
        drawn_from(tokens, parts.flatten()),
{
    assert forall|i: int, j: int|
        0 <= i < tokens.len() && 0 <= j < tokens[i].len() implies parts.flatten().contains(
        #[trigger] tokens[i][j],
    ) by {
        assert(parts.contains(tokens[i]));
        let k = choose|k: int| 0 <= k < parts.len() && parts[k] == tokens[i];
        lemma_parts_are_within(parts, k, j);
    }
}

/// Splits the text at its Unicode word boundaries. A run of letters and
/// digits is one token, any other unit between two boundaries is a token of
/// its own, and whitespace only separates. What separates the tokens is
/// lost; the tokens themselves are pieces of the text, and none is empty
/// or made of whitespace alone.
pub fn tokenize(text: &str) -> (tokens: Vec<String>)
    ensures
        tokens.deep_view() == tokens_of(text@),
        drawn_from(tokens.deep_view(), text@),
        forall|i: int| 0 <= i < tokens.len() ==> !is_whitespace_run(#[trigger] tokens.deep_view()[i]),
{
    let segments = split_word_bounds(text);
    let ghost parts = segments.deep_view();
    let tokens = drop_whitespace_runs(segments);
    proof {
        let kept = tokens.deep_view();
        assert forall|i: int| 0 <= i < kept.len() implies parts.contains(#[trigger] kept[i]) by {
            assert(kept.contains(kept[i]));
            parts.lemma_filter_contains_rev(
                |segment: Seq<char>| !is_whitespace_run(segment),
                kept[i],
            );
        }
        lemma_picked_parts_are_drawn(kept, parts);
    }
    tokens
}

} // verus!
