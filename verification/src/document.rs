//! A document: the path it was read from and its raw text.

use std::cmp::Ordering;
use vstd::prelude::*;
use vstd::string::StringExecFns;

verus! {

/// A source path and the text found there. Two documents are equal when
/// both parts are, and they are ordered by path, then by contents.
#[derive(Clone, Debug, Eq, Ord, Hash)]
pub struct Document {
    pub path: String,
    pub contents: String,
}

/// What a document is in contracts: its two texts.
pub struct DocumentView {
    pub path: Seq<char>,
    pub contents: Seq<char>,
}

impl View for Document {
    type V = DocumentView;

    open spec fn view(&self) -> DocumentView {
        DocumentView { path: self.path@, contents: self.contents@ }
    }
}

impl DeepView for Document {
    type V = DocumentView;

    open spec fn deep_view(&self) -> DocumentView {
        self@
    }
}

/// The order of two texts: that of their first differing characters, by
/// code point; a text comes before every text that it begins.
pub open spec fn order_of_texts(left: Seq<char>, right: Seq<char>) -> Ordering
    decreases left.len(),
{
    if left.len() == 0 && right.len() == 0 {
        Ordering::Equal
    } else if left.len() == 0 {
        Ordering::Less
    } else if right.len() == 0 {
        Ordering::Greater
    } else if left[0] < right[0] {
        Ordering::Less
    } else if left[0] > right[0] {
        Ordering::Greater
    } else {
        order_of_texts(left.drop_first(), right.drop_first())
    }
}

/// The order of two documents: that of their paths, and of their contents
/// where the paths are equal.
pub open spec fn order_of_documents(left: DocumentView, right: DocumentView) -> Ordering {
    match order_of_texts(left.path, right.path) {
        Ordering::Equal => order_of_texts(left.contents, right.contents),
        decided => decided,
    }
}

/// Calls `Ord::cmp` on two strings. Trusted: strings are ordered by their
/// code points, the first difference deciding.
#[verifier::external_body]
fn compare_texts(left: &String, right: &String) -> (order: Ordering)
    ensures
        order == order_of_texts(left@, right@),
{
    left.cmp(right)
}

impl PartialEq for Document {
    fn eq(&self, other: &Document) -> (same: bool) {
        self.path == other.path && self.contents == other.contents
    }
}

impl vstd::std_specs::cmp::PartialEqSpecImpl for Document {
    open spec fn obeys_eq_spec() -> bool {
        true
    }

    open spec fn eq_spec(&self, other: &Document) -> bool {
        self.path@ == other.path@ && self.contents@ == other.contents@
    }
}

impl PartialOrd for Document {
    fn partial_cmp(&self, other: &Document) -> (order: Option<Ordering>) {
        match compare_texts(&self.path, &other.path) {
            Ordering::Equal => Some(compare_texts(&self.contents, &other.contents)),
            decided => Some(decided),
        }
    }
}

impl vstd::std_specs::cmp::PartialOrdSpecImpl for Document {
    open spec fn obeys_partial_cmp_spec() -> bool {
        true
    }

    open spec fn partial_cmp_spec(&self, other: &Document) -> Option<Ordering> {
        Some(order_of_documents(self@, other@))
    }
}

impl Document {
    /// A document with the given path and contents.
    pub fn new(path: String, contents: String) -> (document: Document)
        ensures
            document.path == path,
            document.contents == contents,
    {
        Document { path, contents }
    }

    /// The path, a colon and a space, then the contents.
    pub fn to_string(&self) -> (rendered: String)
        ensures
            rendered@ == self.path@ + ": "@ + self.contents@,
    {
        let mut rendered = self.path.clone();
        rendered.append(": ");
        rendered.append(self.contents.as_str());
        rendered
    }

    /// A copy of the document.
    pub fn duplicate(&self) -> (copy: Document)
        ensures
            copy@ == self@,
    {
        Document { path: self.path.clone(), contents: self.contents.clone() }
    }
}

/// Two texts are in equal order exactly when they are the same text.
pub proof fn lemma_equal_order_is_same_text(left: Seq<char>, right: Seq<char>)
    ensures
        (order_of_texts(left, right) == Ordering::Equal) == (left == right),
    decreases left.len(),
{
    if left.len() == 0 || right.len() == 0 {
        if left.len() == 0 && right.len() == 0 {
            assert(left =~= right);
        }
    } else if left[0] == right[0] {
        lemma_equal_order_is_same_text(left.drop_first(), right.drop_first());
        if left.drop_first() == right.drop_first() {
            assert(left =~= seq![left[0]] + left.drop_first());
            assert(right =~= seq![right[0]] + right.drop_first());
        }
    }
}

/// A text comes before another exactly when the other comes after it.
pub proof fn lemma_order_of_texts_reverses(left: Seq<char>, right: Seq<char>)
    ensures
        (order_of_texts(left, right) == Ordering::Less) == (order_of_texts(right, left)
            == Ordering::Greater),
    decreases left.len(),
{
    if left.len() > 0 && right.len() > 0 && left[0] == right[0] {
        lemma_order_of_texts_reverses(left.drop_first(), right.drop_first());
    }
}

/// Two documents are in equal order exactly when they are the same, and
/// one comes before another exactly when the other comes after it.
pub proof fn lemma_order_of_documents(left: DocumentView, right: DocumentView)
    ensures
        (order_of_documents(left, right) == Ordering::Equal) == (left == right),
        (order_of_documents(left, right) == Ordering::Less) == (order_of_documents(right, left)
            == Ordering::Greater),
{
    lemma_equal_order_is_same_text(left.path, right.path);
    lemma_equal_order_is_same_text(right.path, left.path);
    lemma_equal_order_is_same_text(left.contents, right.contents);
    lemma_order_of_texts_reverses(left.path, right.path);
    lemma_order_of_texts_reverses(right.path, left.path);
    lemma_order_of_texts_reverses(left.contents, right.contents);
}

} // verus!
