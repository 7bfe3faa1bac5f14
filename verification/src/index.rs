//! The inverted index: for every term, the documents that contain it.

use crate::document::{Document, DocumentView};
use crate::postings::{
    entry, is_valid, lemma_update_keeps_valid, of_other_paths, updated, with_document, without_path,
};
use crate::pipeline::{terms, terms_of};
use vstd::prelude::*;
use vstd::seq_lib::seq_to_set_is_finite;

verus! {

/// A term and the documents that contain it.
#[derive(Debug)]
struct Posting {
    term: String,
    documents: Vec<Document>,
}

/// An inverted index. It stands for a map from each term to the set of
/// documents that contain it; every key has at least one document, and a
/// path stands for one document only.
#[derive(Debug)]
pub struct Index {
    postings: Vec<Posting>,
}

impl View for Index {
    type V = Map<Seq<char>, Set<DocumentView>>;

    closed spec fn view(&self) -> Map<Seq<char>, Set<DocumentView>> {
        postings_map(self.postings@)
    }
}

/// The `k`-th of the documents is `d`.
spec fn holds(documents: Seq<Document>, k: int, d: DocumentView) -> bool {
    0 <= k < documents.len() && documents[k]@ == d
}

/// The documents of a list, as a set.
spec fn documents_of(documents: Seq<Document>) -> Set<DocumentView> {
    Set::new(|d: DocumentView| exists|k: int| holds(documents, k, d))
}

/// No document stands twice in the list.
spec fn distinct_documents(documents: Seq<Document>) -> bool {
    forall|a: int, b: int|
        0 <= a < b < documents.len() ==> (#[trigger] documents[a])@ != (#[trigger] documents[b])@
}

/// The `i`-th posting is the one of `term`.
spec fn names(postings: Seq<Posting>, i: int, term: Seq<char>) -> bool {
    0 <= i < postings.len() && postings[i].term@ == term
}

/// No term has two postings.
spec fn distinct_terms(postings: Seq<Posting>) -> bool {
    forall|i: int, j: int|
        0 <= i < j < postings.len() ==> (#[trigger] postings[i]).term@ != (
        #[trigger] postings[j]).term@
}

/// No posting holds a document twice.
spec fn distinct_entries(postings: Seq<Posting>) -> bool {
    forall|i: int| 0 <= i < postings.len() ==> distinct_documents((#[trigger] postings[i]).documents@)
}

/// The map that a list of postings stands for.
spec fn postings_map(postings: Seq<Posting>) -> Map<Seq<char>, Set<DocumentView>> {
    Map::new(
        |term: Seq<char>| exists|i: int| names(postings, i, term),
        |term: Seq<char>|
            documents_of(postings[choose|i: int| names(postings, i, term)].documents@),
    )
}

/// Where no term has two postings, the `i`-th posting gives the entry of
/// its term.
proof fn lemma_posting_is_entry(postings: Seq<Posting>, i: int)
    requires
        distinct_terms(postings),
        0 <= i < postings.len(),
    ensures
        postings_map(postings).dom().contains(postings[i].term@),
        postings_map(postings)[postings[i].term@] == documents_of(postings[i].documents@),
        entry(postings_map(postings), postings[i].term@) == documents_of(postings[i].documents@),
{
    let term = postings[i].term@;
    assert(names(postings, i, term));
    let j = choose|j: int| names(postings, j, term);
    assert(j == i) by {
        if j < i {
            assert(postings[j].term@ != postings[i].term@);
        }
        if i < j {
            assert(postings[i].term@ != postings[j].term@);
        }
    }
}

impl Index {
    #[verifier::type_invariant]
    spec fn well_formed(self) -> bool {
        &&& distinct_terms(self.postings@)
        &&& distinct_entries(self.postings@)
        &&& is_valid(postings_map(self.postings@))
    }

    /// An index without terms.
    pub fn new() -> (index: Index)
        ensures
            index@ == Map::<Seq<char>, Set<DocumentView>>::empty(),
            is_valid(index@),
    {
        let index = Index { postings: Vec::new() };
        proof {
            assert(index@ =~= Map::<Seq<char>, Set<DocumentView>>::empty());
        }
        index
    }

    /// Indexes a document under its tokens. Whatever was recorded under the
    /// document's path leaves the index; then the document enters under each
    /// distinct token, once.
    pub fn update(&mut self, document: &Document, tokens: &Vec<String>)
        ensures
            final(self)@ == updated(old(self)@, document@, tokens.deep_view().to_set()),
            is_valid(final(self)@),
    {
        proof {
            use_type_invariant(&*self);
        }
        let ghost before = self@;
        let ghost words = tokens.deep_view();
        let mut postings: Vec<Posting> = Vec::new();
        std::mem::swap(&mut postings, &mut self.postings);
        let mut postings = drop_path(postings, &document.path);
        let ghost base = postings_map(postings@);
        proof {
            assert(words.take(0).to_set() =~= Set::<Seq<char>>::empty());
            assert(with_document(base, document@, Set::<Seq<char>>::empty()) =~= base);
        }
        let mut i: usize = 0;
        while i < tokens.len()
            invariant
                i <= tokens.len(),
                words == tokens.deep_view(),
                distinct_terms(postings@),
                distinct_entries(postings@),
                postings_map(postings@) == with_document(
                    base,
                    document@,
                    words.take(i as int).to_set(),
                ),
            decreases tokens.len() - i,
        {
            add_under(&mut postings, &tokens[i], document);
            proof {
                let seen = words.take(i as int);
                assert(words.take(i + 1) == seen.push(tokens[i as int]@));
                seen.lemma_push_to_set_commute(tokens[i as int]@);
                lemma_with_one_more(base, document@, seen.to_set(), tokens[i as int]@);
            }
            i += 1;
        }
        proof {
            assert(words.take(tokens.len() as int) == words);
            lemma_update_keeps_valid(before, document@, words.to_set());
        }
        self.postings = postings;
    }

    /// Indexes a document under the terms of its contents.
    pub fn store_processed_text_in_index(&mut self, document: &Document)
        ensures
            final(self)@ == updated(old(self)@, document@, terms_of(document.contents@).to_set()),
            is_valid(final(self)@),
    {
        let tokens = terms(document.contents.as_str());
        self.update(document, &tokens);
    }

    /// The documents that contain the term, each once; none for a term that
    /// the index does not know.
    pub fn lookup(&self, term: &str) -> (found: Vec<Document>)
        ensures
            found.deep_view().to_set() == entry(self@, term@),
            found.deep_view().no_duplicates(),
    {
        proof {
            use_type_invariant(self);
        }
        let wanted = term.to_owned();
        let mut found: Vec<Document> = Vec::new();
        match position_of(&self.postings, &wanted) {
            Some(i) => {
                let documents = &self.postings[i].documents;
                let mut k: usize = 0;
                while k < documents.len()
                    invariant
                        k <= documents.len(),
                        found.len() == k,
                        forall|j: int| 0 <= j < k ==> (#[trigger] found[j])@ == documents[j]@,
                    decreases documents.len() - k,
                {
                    found.push(documents[k].duplicate());
                    k += 1;
                }
                proof {
                    lemma_posting_is_entry(self.postings@, i as int);
                    assert(distinct_documents(documents@));
                    lemma_copied_documents(found@, documents@);
                }
            },
            None => {
                proof {
                    assert(!self@.dom().contains(term@));
                    assert(found.deep_view().to_set() =~= Set::<DocumentView>::empty());
                }
            },
        }
        found
    }

    /// The number of terms.
    pub fn len(&self) -> (count: usize)
        ensures
            self@.dom().finite(),
            count == self@.dom().len(),
    {
        proof {
            use_type_invariant(self);
            lemma_count_terms(self.postings@);
        }
        self.postings.len()
    }
}

/// A list that copies a list of distinct documents holds the same
/// documents, each once.
proof fn lemma_copied_documents(copies: Seq<Document>, documents: Seq<Document>)
    requires
        copies.len() == documents.len(),
        forall|j: int| 0 <= j < copies.len() ==> (#[trigger] copies[j])@ == documents[j]@,
        distinct_documents(documents),
    ensures
        Seq::new(copies.len(), |i: int| copies[i].deep_view()).to_set() == documents_of(documents),
        Seq::new(copies.len(), |i: int| copies[i].deep_view()).no_duplicates(),
{
    let views = Seq::new(copies.len(), |i: int| copies[i].deep_view());
    assert forall|d: DocumentView| views.to_set().contains(d) == documents_of(documents).contains(
        d,
    ) by {
        if views.to_set().contains(d) {
            let j = choose|j: int| 0 <= j < views.len() && views[j] == d;
            assert(holds(documents, j, d));
        }
        if documents_of(documents).contains(d) {
            let j = choose|j: int| holds(documents, j, d);
            assert(views[j] == d);
        }
    }
    assert(views.to_set() =~= documents_of(documents));
    assert forall|a: int, b: int| 0 <= a < views.len() && 0 <= b < views.len() && a != b implies views[a]
        != views[b] by {
        if a < b {
            assert(documents[a]@ != documents[b]@);
        } else {
            assert(documents[b]@ != documents[a]@);
        }
    }
}

/// Postings of distinct terms stand for a map with as many keys.
proof fn lemma_count_terms(postings: Seq<Posting>)
    requires
        distinct_terms(postings),
    ensures
        postings_map(postings).dom().finite(),
        postings_map(postings).dom().len() == postings.len(),
{
    let keys = Seq::new(postings.len(), |i: int| postings[i].term@);
    assert forall|t: Seq<char>| keys.to_set().contains(t) == postings_map(postings).dom().contains(
        t,
    ) by {
        if keys.to_set().contains(t) {
            let i = choose|i: int| 0 <= i < keys.len() && keys[i] == t;
            assert(names(postings, i, t));
        }
        if postings_map(postings).dom().contains(t) {
            let i = choose|i: int| names(postings, i, t);
            assert(keys[i] == t);
        }
    }
    assert(keys.to_set() =~= postings_map(postings).dom());
    assert forall|a: int, b: int| 0 <= a < keys.len() && 0 <= b < keys.len() && a != b implies keys[a]
        != keys[b] by {
        if a < b {
            assert(postings[a].term@ != postings[b].term@);
        } else {
            assert(postings[b].term@ != postings[a].term@);
        }
    }
    keys.unique_seq_to_set();
    seq_to_set_is_finite(keys);
}

/// Adding a document under a set of terms and then under one more term is
/// adding it under the larger set.
proof fn lemma_with_one_more(
    postings: Map<Seq<char>, Set<DocumentView>>,
    document: DocumentView,
    terms: Set<Seq<char>>,
    term: Seq<char>,
)
    ensures
        with_document(with_document(postings, document, terms), document, set![term])
            == with_document(postings, document, terms.insert(term)),
{
    let step = with_document(with_document(postings, document, terms), document, set![term]);
    let whole = with_document(postings, document, terms.insert(term));
    assert(step.dom() =~= whole.dom());
    assert forall|t: Seq<char>| #[trigger] step.dom().contains(t) implies step[t] =~= whole[t] by {
    }
    assert(step =~= whole);
}

/// `kept` holds, in their order, the documents among the first `done` of
/// `all` whose path is not `path`; `source` says where each came from.
spec fn selects(
    kept: Seq<Document>,
    all: Seq<Document>,
    done: int,
    source: Seq<int>,
    path: Seq<char>,
) -> bool {
    &&& source.len() == kept.len()
    &&& forall|k: int|
        0 <= k < kept.len() ==> 0 <= #[trigger] source[k] < done && kept[k]@ == all[source[k]]@
            && kept[k]@.path != path
    &&& forall|j: int|
        0 <= j < done && (#[trigger] all[j])@.path != path ==> exists|k: int|
            0 <= k < kept.len() && #[trigger] source[k] == j
}

/// A selection of all the documents stands for those of other paths.
proof fn lemma_selected_documents(
    kept: Seq<Document>,
    all: Seq<Document>,
    source: Seq<int>,
    path: Seq<char>,
)
    requires
        selects(kept, all, all.len() as int, source, path),
    ensures
        documents_of(kept) == of_other_paths(documents_of(all), path),
{
    let others = of_other_paths(documents_of(all), path);
    assert forall|d: DocumentView| documents_of(kept).contains(d) == others.contains(d) by {
        if documents_of(kept).contains(d) {
            let k = choose|k: int| holds(kept, k, d);
            assert(holds(all, source[k], d));
        }
        if others.contains(d) {
            let j = choose|j: int| holds(all, j, d);
            assert(all[j]@.path != path);
            let k = choose|k: int| 0 <= k < kept.len() && #[trigger] source[k] == j;
            assert(holds(kept, k, d));
        }
    }
    assert(documents_of(kept) =~= others);
}

/// Keeps the documents whose path is not `path`.
fn keep_other_paths(documents: Vec<Document>, path: &String) -> (kept: Vec<Document>)
    requires
        distinct_documents(documents@),
    ensures
        distinct_documents(kept@),
        documents_of(kept@) == of_other_paths(documents_of(documents@), path@),
{
    let ghost all = documents@;
    let ghost mut source: Seq<int> = Seq::empty();
    let mut kept: Vec<Document> = Vec::new();
    for document in it: documents
        invariant
            it.seq() == all,
            distinct_documents(all),
            distinct_documents(kept@),
            selects(kept@, all, it.index(), source, path@),
    {
        let ghost before = kept@;
        let ghost before_source = source;
        let ghost here = it.index();
        if document.path != *path {
            kept.push(document);
            proof {
                source = source.push(here);
                assert forall|j: int|
                    0 <= j < here + 1 && (#[trigger] all[j])@.path != path@ implies exists|k: int|
                    0 <= k < kept.len() && #[trigger] source[k] == j by {
                    if j < here {
                        let k = choose|k: int|
                            0 <= k < before.len() && #[trigger] before_source[k] == j;
                        assert(source[k] == j);
                    } else {
                        assert(source[before.len() as int] == j);
                    }
                }
                assert forall|a: int, b: int| 0 <= a < b < kept.len() implies (#[trigger] kept[a])@
                    != (#[trigger] kept[b])@ by {
                    if b == before.len() {
                        assert(all[source[a]]@ != all[here]@);
                    }
                }
                assert(selects(kept@, all, here + 1, source, path@));
            }
        } else {
            assert(selects(kept@, all, here + 1, source, path@));
        }
    }
    proof {
        lemma_selected_documents(kept@, all, source, path@);
    }
    kept
}

/// One posting is another with the documents of `path` taken out.
spec fn is_trimmed(trimmed: Posting, whole: Posting, path: Seq<char>) -> bool {
    &&& trimmed.term@ == whole.term@
    &&& documents_of(trimmed.documents@) == of_other_paths(documents_of(whole.documents@), path)
}

/// Some document of the posting has another path than `path`.
spec fn outlasts(posting: Posting, path: Seq<char>) -> bool {
    exists|d: DocumentView| #[trigger]
        of_other_paths(documents_of(posting.documents@), path).contains(d)
}

/// `kept` holds, trimmed and in their order, the postings among the first
/// `done` of `all` that outlast the path; `source` says where each came from.
spec fn trims(kept: Seq<Posting>, all: Seq<Posting>, done: int, source: Seq<int>, path: Seq<char>)
    -> bool {
    &&& source.len() == kept.len()
    &&& forall|k: int|
        0 <= k < kept.len() ==> 0 <= #[trigger] source[k] < done && is_trimmed(
            kept[k],
            all[source[k]],
            path,
        ) && outlasts(all[source[k]], path)
    &&& forall|j: int|
        0 <= j < done && outlasts(#[trigger] all[j], path) ==> exists|k: int|
            0 <= k < kept.len() && #[trigger] source[k] == j
}

/// Takes the documents of `path` out of every posting, and drops the
/// postings that are left without a document.
fn drop_path(postings: Vec<Posting>, path: &String) -> (kept: Vec<Posting>)
    requires
        distinct_terms(postings@),
        distinct_entries(postings@),
    ensures
        distinct_terms(kept@),
        distinct_entries(kept@),
        postings_map(kept@) == without_path(postings_map(postings@), path@),
{
    let ghost all = postings@;
    let ghost mut source: Seq<int> = Seq::empty();
    let mut kept: Vec<Posting> = Vec::new();
    for posting in it: postings
        invariant
            it.seq() == all,
            distinct_terms(all),
            distinct_entries(all),
            distinct_terms(kept@),
            distinct_entries(kept@),
            trims(kept@, all, it.index(), source, path@),
    {
        let ghost before = kept@;
        let ghost before_source = source;
        let ghost here = it.index();
        let ghost whole = posting;
        let Posting { term, documents } = posting;
        assert(distinct_documents(all[here].documents@));
        let others = keep_other_paths(documents, path);
        if others.len() > 0 {
            let trimmed = Posting { term, documents: others };
            proof {
                assert(holds(others@, 0, others[0]@));
                assert(documents_of(others@).contains(others[0]@));
                assert(outlasts(whole, path@));
            }
            kept.push(trimmed);
            proof {
                source = source.push(here);
                assert forall|j: int|
                    0 <= j < here + 1 && outlasts(#[trigger] all[j], path@) implies exists|k: int|
                    0 <= k < kept.len() && #[trigger] source[k] == j by {
                    if j < here {
                        let k = choose|k: int|
                            0 <= k < before.len() && #[trigger] before_source[k] == j;
                        assert(source[k] == j);
                    } else {
                        assert(source[before.len() as int] == j);
                    }
                }
                assert forall|a: int, b: int| 0 <= a < b < kept.len() implies (
                #[trigger] kept[a]).term@ != (#[trigger] kept[b]).term@ by {
                    if b == before.len() {
                        assert(all[source[a]].term@ != all[here].term@);
                    }
                }
                assert(trims(kept@, all, here + 1, source, path@));
            }
        } else {
            proof {
                if outlasts(whole, path@) {
                    let d = choose|d: DocumentView| #[trigger]
                        of_other_paths(documents_of(whole.documents@), path@).contains(d);
                    let k = choose|k: int| holds(others@, k, d);
                    assert(false);
                }
                assert(trims(kept@, all, here + 1, source, path@));
            }
        }
    }
    proof {
        lemma_trimmed_postings(kept@, all, source, path@);
    }
    kept
}

/// Postings that are the trimmed survivors of others stand for the map
/// without the path.
proof fn lemma_trimmed_postings(
    kept: Seq<Posting>,
    all: Seq<Posting>,
    source: Seq<int>,
    path: Seq<char>,
)
    requires
        distinct_terms(all),
        distinct_terms(kept),
        trims(kept, all, all.len() as int, source, path),
    ensures
        postings_map(kept) == without_path(postings_map(all), path),
{
    let left = postings_map(kept);
    let whole = postings_map(all);
    let right = without_path(whole, path);
    assert forall|term: Seq<char>| #[trigger] left.dom().contains(term) implies right.dom().contains(
        term,
    ) && left[term] == right[term] by {
        let k = choose|k: int| names(kept, k, term);
        let j = source[k];
        lemma_posting_is_entry(kept, k);
        lemma_posting_is_entry(all, j);
        let d = choose|d: DocumentView| #[trigger]
            of_other_paths(documents_of(all[j].documents@), path).contains(d);
        assert(entry(whole, term).contains(d) && d.path != path);
    }
    assert forall|term: Seq<char>| #[trigger] right.dom().contains(term) implies left.dom().contains(
        term,
    ) by {
        let d = choose|d: DocumentView| #[trigger] entry(whole, term).contains(d) && d.path != path;
        let j = choose|j: int| names(all, j, term);
        lemma_posting_is_entry(all, j);
        assert(of_other_paths(documents_of(all[j].documents@), path).contains(d));
        assert(outlasts(all[j], path));
        let k = choose|k: int| 0 <= k < kept.len() && #[trigger] source[k] == j;
        assert(names(kept, k, term));
    }
    assert(left.dom() =~= right.dom());
    assert(left =~= right);
}

/// The documents of a list with one more at its end.
proof fn lemma_documents_of_push(documents: Seq<Document>, document: Document)
    ensures
        documents_of(documents.push(document)) == documents_of(documents).insert(document@),
{
    let longer = documents.push(document);
    assert forall|d: DocumentView|
        documents_of(longer).contains(d) == documents_of(documents).insert(document@).contains(
            d,
        ) by {
        if documents_of(longer).contains(d) {
            let k = choose|k: int| holds(longer, k, d);
            if k < documents.len() {
                assert(holds(documents, k, d));
            }
        }
        if documents_of(documents).contains(d) {
            let k = choose|k: int| holds(documents, k, d);
            assert(holds(longer, k, d));
        }
        if d == document@ {
            assert(holds(longer, documents.len() as int, d));
        }
    }
    assert(documents_of(longer) =~= documents_of(documents).insert(document@));
}

/// Where the posting of `term` stands, if the term has one.
fn position_of(postings: &Vec<Posting>, term: &String) -> (found: Option<usize>)
    ensures
        match found {
            Some(i) => names(postings@, i as int, term@),
            None => forall|i: int| !names(postings@, i, term@),
        },
{
    let mut i: usize = 0;
    while i < postings.len()
        invariant
            i <= postings.len(),
            forall|j: int| 0 <= j < i ==> !names(postings@, j, term@),
        decreases postings.len() - i,
    {
        if postings[i].term == *term {
            return Some(i);
        }
        i += 1;
    }
    None
}

/// Whether the list holds the document.
fn holds_document(documents: &Vec<Document>, document: &Document) -> (found: bool)
    ensures
        found == documents_of(documents@).contains(document@),
{
    let mut i: usize = 0;
    while i < documents.len()
        invariant
            i <= documents.len(),
            forall|j: int| 0 <= j < i ==> !holds(documents@, j, document@),
        decreases documents.len() - i,
    {
        if documents[i] == *document {
            assert(holds(documents@, i as int, document@));
            return true;
        }
        i += 1;
    }
    false
}

/// Putting a document into one posting puts it under that posting's term.
proof fn lemma_posting_grows(
    before: Seq<Posting>,
    after: Seq<Posting>,
    i: int,
    document: DocumentView,
)
    requires
        distinct_terms(before),
        0 <= i < before.len(),
        after.len() == before.len(),
        forall|j: int| 0 <= j < before.len() && j != i ==> #[trigger] after[j] == before[j],
        after[i].term@ == before[i].term@,
        documents_of(after[i].documents@) == documents_of(before[i].documents@).insert(document),
    ensures
        distinct_terms(after),
        postings_map(after) == with_document(
            postings_map(before),
            document,
            set![before[i].term@],
        ),
{
    let term = before[i].term@;
    let wanted = with_document(postings_map(before), document, set![term]);
    assert forall|j: int| 0 <= j < before.len() implies (#[trigger] after[j]).term@
        == before[j].term@ by {
        if j != i {
            assert(after[j] == before[j]);
        }
    }
    assert forall|a: int, b: int| 0 <= a < b < after.len() implies (#[trigger] after[a]).term@ != (
    #[trigger] after[b]).term@ by {
        assert(before[a].term@ != before[b].term@);
    }
    assert forall|t: Seq<char>| #[trigger]
        postings_map(after).dom().contains(t) implies wanted.dom().contains(t) by {
        let j = choose|j: int| names(after, j, t);
        assert(names(before, j, t));
    }
    assert forall|t: Seq<char>| #[trigger] wanted.dom().contains(t) implies postings_map(
        after,
    ).dom().contains(t) && postings_map(after)[t] == wanted[t] by {
        if t == term {
            assert(names(after, i, t));
            lemma_posting_is_entry(after, i);
            lemma_posting_is_entry(before, i);
        } else {
            let j = choose|j: int| names(before, j, t);
            assert(names(after, j, t));
            assert(after[j] == before[j]);
            lemma_posting_is_entry(after, j);
            lemma_posting_is_entry(before, j);
        }
    }
    assert(postings_map(after).dom() =~= wanted.dom());
}

/// A new posting with one document puts the document under its term.
proof fn lemma_posting_added(before: Seq<Posting>, posting: Posting, document: DocumentView)
    requires
        distinct_terms(before),
        forall|i: int| !names(before, i, posting.term@),
        documents_of(posting.documents@) == Set::<DocumentView>::empty().insert(document),
    ensures
        distinct_terms(before.push(posting)),
        postings_map(before.push(posting)) == with_document(
            postings_map(before),
            document,
            set![posting.term@],
        ),
{
    let after = before.push(posting);
    let last = before.len() as int;
    let term = posting.term@;
    let wanted = with_document(postings_map(before), document, set![term]);
    assert forall|a: int, b: int| 0 <= a < b < after.len() implies (#[trigger] after[a]).term@ != (
    #[trigger] after[b]).term@ by {
        if b == last {
            assert(!names(before, a, term));
        } else {
            assert(before[a].term@ != before[b].term@);
        }
    }
    assert(!postings_map(before).dom().contains(term));
    assert forall|t: Seq<char>| #[trigger]
        postings_map(after).dom().contains(t) implies wanted.dom().contains(t) by {
        let j = choose|j: int| names(after, j, t);
        if j < last {
            assert(names(before, j, t));
        }
    }
    assert forall|t: Seq<char>| #[trigger] wanted.dom().contains(t) implies postings_map(
        after,
    ).dom().contains(t) && postings_map(after)[t] == wanted[t] by {
        if t == term {
            assert(names(after, last, t));
            lemma_posting_is_entry(after, last);
        } else {
            let j = choose|j: int| names(before, j, t);
            assert(names(after, j, t));
            lemma_posting_is_entry(after, j);
            lemma_posting_is_entry(before, j);
        }
    }
    assert(postings_map(after).dom() =~= wanted.dom());
}

/// Records the document under the term, unless it stands there already.
fn add_under(postings: &mut Vec<Posting>, term: &String, document: &Document)
    requires
        distinct_terms(old(postings)@),
        distinct_entries(old(postings)@),
    ensures
        distinct_terms(final(postings)@),
        distinct_entries(final(postings)@),
        postings_map(final(postings)@) == with_document(
            postings_map(old(postings)@),
            document@,
            set![term@],
        ),
{
    let ghost before = postings@;
    match position_of(postings, term) {
        Some(i) => {
            assert(distinct_documents(before[i as int].documents@));
            if !holds_document(&postings[i].documents, document) {
                let copy = document.duplicate();
                postings[i].documents.push(copy);
                proof {
                    lemma_documents_of_push(before[i as int].documents@, copy);
                    lemma_posting_grows(before, postings@, i as int, document@);
                    assert forall|j: int| 0 <= j < postings.len() implies distinct_documents(
                        (#[trigger] postings@[j]).documents@,
                    ) by {
                        assert(distinct_documents(before[j].documents@));
                        if j == i {
                            let longer = postings@[j].documents@;
                            assert forall|a: int, b: int| 0 <= a < b < longer.len() implies (
                            #[trigger] longer[a])@ != (#[trigger] longer[b])@ by {
                                if b == longer.len() - 1 {
                                    assert(!holds(before[j].documents@, a, document@));
                                }
                            }
                        } else {
                            assert(postings@[j] == before[j]);
                        }
                    }
                }
            } else {
                proof {
                    assert(documents_of(before[i as int].documents@).insert(document@)
                        =~= documents_of(before[i as int].documents@));
                    lemma_posting_grows(before, before, i as int, document@);
                }
            }
        },
        None => {
            let copy = document.duplicate();
            let mut documents: Vec<Document> = Vec::new();
            documents.push(copy);
            let posting = Posting { term: term.clone(), documents };
            proof {
                assert(posting.documents@ =~= Seq::<Document>::empty().push(copy));
                lemma_documents_of_push(Seq::<Document>::empty(), copy);
                assert(documents_of(Seq::<Document>::empty()) =~= Set::<DocumentView>::empty());
                lemma_posting_added(before, posting, document@);
            }
            postings.push(posting);
            proof {
                assert forall|j: int| 0 <= j < postings.len() implies distinct_documents(
                    (#[trigger] postings@[j]).documents@,
                ) by {
                    if j < before.len() {
                        assert(distinct_documents(before[j].documents@));
                    }
                }
            }
        },
    }
}

} // verus!
