//! The inverted index as a mathematical object: a map from each term to the
//! set of documents that contain it, and what indexing a document does to it.

use crate::document::DocumentView;
use vstd::prelude::*;

verus! {

/// The documents recorded for a term: none for a term that is not a key.
pub open spec fn entry(
    postings: Map<Seq<char>, Set<DocumentView>>,
    term: Seq<char>,
) -> Set<DocumentView> {
    if postings.dom().contains(term) {
        postings[term]
    } else {
        Set::empty()
    }
}

/// The documents of the set whose path is not `path`.
pub open spec fn of_other_paths(documents: Set<DocumentView>, path: Seq<char>) -> Set<
    DocumentView,
> {
    documents.filter(|d: DocumentView| d.path != path)
}

/// The map without any document of the given path. A term that no other
/// document contains is no longer a key.
pub open spec fn without_path(
    postings: Map<Seq<char>, Set<DocumentView>>,
    path: Seq<char>,
) -> Map<Seq<char>, Set<DocumentView>> {
    Map::new(
        |term: Seq<char>|
            exists|d: DocumentView| #[trigger] entry(postings, term).contains(d) && d.path != path,
        |term: Seq<char>| of_other_paths(entry(postings, term), path),
    )
}

/// The map with the document added under each of the terms. How often a
/// term occurs makes no difference: `terms` is a set.
pub open spec fn with_document(
    postings: Map<Seq<char>, Set<DocumentView>>,
    document: DocumentView,
    terms: Set<Seq<char>>,
) -> Map<Seq<char>, Set<DocumentView>> {
    Map::new(
        |term: Seq<char>| postings.dom().contains(term) || terms.contains(term),
        |term: Seq<char>|
            if terms.contains(term) {
                entry(postings, term).insert(document)
            } else {
                entry(postings, term)
            },
    )
}

/// Indexing a document: whatever was recorded under its path leaves, then
/// the document enters under each of its terms.
pub open spec fn updated(
    postings: Map<Seq<char>, Set<DocumentView>>,
    document: DocumentView,
    terms: Set<Seq<char>>,
) -> Map<Seq<char>, Set<DocumentView>> {
    with_document(without_path(postings, document.path), document, terms)
}

/// What holds of every index: a key has at least one document, and a path
/// stands for one document only.
pub open spec fn is_valid(postings: Map<Seq<char>, Set<DocumentView>>) -> bool {
    &&& forall|term: Seq<char>| #[trigger]
        postings.dom().contains(term) ==> exists|d: DocumentView| postings[term].contains(d)
    &&& forall|t1: Seq<char>, t2: Seq<char>, d1: DocumentView, d2: DocumentView|
        #![trigger entry(postings, t1).contains(d1), entry(postings, t2).contains(d2)]
        entry(postings, t1).contains(d1) && entry(postings, t2).contains(d2) && d1.path == d2.path
            ==> d1 == d2
}

/// After indexing, the document stands under exactly its terms, and nothing
/// else of its path is left anywhere.
pub proof fn lemma_update_replaces(
    postings: Map<Seq<char>, Set<DocumentView>>,
    document: DocumentView,
    terms: Set<Seq<char>>,
    term: Seq<char>,
    d: DocumentView,
)
    ensures
        entry(updated(postings, document, terms), term).contains(document) <==> terms.contains(
            term,
        ),
        d.path == document.path && entry(updated(postings, document, terms), term).contains(d)
            ==> d == document,
        d.path != document.path ==> (entry(updated(postings, document, terms), term).contains(d)
            <==> entry(postings, term).contains(d)),
{
}

/// After indexing, every key has at least one document.
pub proof fn lemma_update_fills_keys(
    postings: Map<Seq<char>, Set<DocumentView>>,
    document: DocumentView,
    terms: Set<Seq<char>>,
)
    ensures
        forall|term: Seq<char>| #[trigger]
            updated(postings, document, terms).dom().contains(term) ==> exists|d: DocumentView|
                updated(postings, document, terms)[term].contains(d),
{
    let after = updated(postings, document, terms);
    assert forall|term: Seq<char>| #[trigger] after.dom().contains(term) implies exists|
        d: DocumentView,
    |
        after[term].contains(d) by {
        if terms.contains(term) {
            assert(after[term].contains(document));
        } else {
            let d = choose|d: DocumentView| #[trigger]
                entry(postings, term).contains(d) && d.path != document.path;
            assert(after[term].contains(d));
        }
    }
}

/// Indexing a document keeps the index valid.
pub proof fn lemma_update_keeps_valid(
    postings: Map<Seq<char>, Set<DocumentView>>,
    document: DocumentView,
    terms: Set<Seq<char>>,
)
    requires
        is_valid(postings),
    ensures
        is_valid(updated(postings, document, terms)),
{
    let after = updated(postings, document, terms);
    lemma_update_fills_keys(postings, document, terms);
    assert forall|t1: Seq<char>, t2: Seq<char>, d1: DocumentView, d2: DocumentView|
        #![trigger entry(after, t1).contains(d1), entry(after, t2).contains(d2)]
        entry(after, t1).contains(d1) && entry(after, t2).contains(d2) && d1.path
            == d2.path implies d1 == d2 by {
        lemma_update_replaces(postings, document, terms, t1, d1);
        lemma_update_replaces(postings, document, terms, t2, d2);
        if d1.path != document.path {
            assert(entry(postings, t1).contains(d1));
            assert(entry(postings, t2).contains(d2));
        }
    }
}

/// Indexing the same document twice leaves the index as indexing it once.
pub proof fn lemma_update_is_idempotent(
    postings: Map<Seq<char>, Set<DocumentView>>,
    document: DocumentView,
    terms: Set<Seq<char>>,
)
    ensures
        updated(updated(postings, document, terms), document, terms) == updated(
            postings,
            document,
            terms,
        ),
{
    let once = updated(postings, document, terms);
    let twice = updated(once, document, terms);
    assert forall|term: Seq<char>| once.dom().contains(term) == twice.dom().contains(term) by {
        if !terms.contains(term) {
            if once.dom().contains(term) {
                let d = choose|d: DocumentView| #[trigger]
                    entry(postings, term).contains(d) && d.path != document.path;
                assert(entry(once, term).contains(d));
            }
            if twice.dom().contains(term) {
                let d = choose|d: DocumentView| #[trigger]
                    entry(once, term).contains(d) && d.path != document.path;
                assert(entry(postings, term).contains(d));
            }
        }
    }
    assert forall|term: Seq<char>| #[trigger] once.dom().contains(term) implies once[term]
        =~= twice[term] by {
        assert forall|d: DocumentView| once[term].contains(d) == twice[term].contains(d) by {
            lemma_update_replaces(postings, document, terms, term, d);
            lemma_update_replaces(once, document, terms, term, d);
        }
    }
    assert(once =~= twice);
}

/// Documents of different paths can be indexed in either order.
pub proof fn lemma_updates_commute(
    postings: Map<Seq<char>, Set<DocumentView>>,
    first: DocumentView,
    first_terms: Set<Seq<char>>,
    second: DocumentView,
    second_terms: Set<Seq<char>>,
)
    requires
        first.path != second.path,
    ensures
        updated(updated(postings, first, first_terms), second, second_terms) == updated(
            updated(postings, second, second_terms),
            first,
            first_terms,
        ),
{
    let a = updated(postings, first, first_terms);
    let ab = updated(a, second, second_terms);
    let b = updated(postings, second, second_terms);
    let ba = updated(b, first, first_terms);
    assert forall|term: Seq<char>, d: DocumentView|
        entry(ab, term).contains(d) == entry(ba, term).contains(d) by {
        lemma_update_replaces(postings, first, first_terms, term, d);
        lemma_update_replaces(a, second, second_terms, term, d);
        lemma_update_replaces(postings, second, second_terms, term, d);
        lemma_update_replaces(b, first, first_terms, term, d);
        lemma_update_replaces(postings, first, first_terms, term, first);
        lemma_update_replaces(a, second, second_terms, term, first);
        lemma_update_replaces(postings, second, second_terms, term, second);
        lemma_update_replaces(b, first, first_terms, term, second);
    }
    lemma_update_fills_keys(a, second, second_terms);
    lemma_update_fills_keys(b, first, first_terms);
    lemma_same_entries(ab, ba);
}

/// Two maps whose keys all have documents are equal when every term has
/// the same documents in both.
proof fn lemma_same_entries(
    left: Map<Seq<char>, Set<DocumentView>>,
    right: Map<Seq<char>, Set<DocumentView>>,
)
    requires
        forall|term: Seq<char>, d: DocumentView|
            entry(left, term).contains(d) == entry(right, term).contains(d),
        forall|term: Seq<char>| #[trigger]
            left.dom().contains(term) ==> exists|d: DocumentView| left[term].contains(d),
        forall|term: Seq<char>| #[trigger]
            right.dom().contains(term) ==> exists|d: DocumentView| right[term].contains(d),
    ensures
        left == right,
{
    assert forall|term: Seq<char>| left.dom().contains(term) == right.dom().contains(term) by {
        if left.dom().contains(term) {
            let d = choose|d: DocumentView| left[term].contains(d);
            assert(entry(left, term).contains(d));
            assert(entry(right, term).contains(d));
        }
        if right.dom().contains(term) {
            let d = choose|d: DocumentView| right[term].contains(d);
            assert(entry(right, term).contains(d));
            assert(entry(left, term).contains(d));
        }
    }
    assert forall|term: Seq<char>| #[trigger] left.dom().contains(term) implies left[term]
        =~= right[term] by {
        assert forall|d: DocumentView| left[term].contains(d) == right[term].contains(d) by {
            assert(entry(left, term).contains(d) == entry(right, term).contains(d));
        }
    }
    assert(left =~= right);
}

} // verus!
