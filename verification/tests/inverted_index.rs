use indexer::{Document, Index};
use std::cmp::Ordering;

fn strings(words: &[&str]) -> Vec<String> {
    words.iter().map(|w| w.to_string()).collect()
}

fn doc(path: &str, contents: &str) -> Document {
    Document::new(path.to_string(), contents.to_string())
}

fn sorted(mut documents: Vec<Document>) -> Vec<Document> {
    documents.sort();
    documents
}

#[test]
fn document_new_keeps_both_parts() {
    let document = Document::new("notes/a.txt".to_string(), "Hello, world!".to_string());
    assert_eq!(document.path, "notes/a.txt");
    assert_eq!(document.contents, "Hello, world!");
}

#[test]
fn document_to_string_is_path_colon_contents() {
    assert_eq!(doc("a.txt", "Hello, world!").to_string(), "a.txt: Hello, world!");
    assert_eq!(doc("", "").to_string(), ": ");
}

#[test]
fn document_equality_is_over_path_and_contents() {
    assert_eq!(doc("a", "x"), doc("a", "x"));
    assert_ne!(doc("a", "x"), doc("a", "y"));
    assert_ne!(doc("a", "x"), doc("b", "x"));
    assert!(doc("a", "x") == doc("a", "x"));
    assert!(doc("a", "x") != doc("a", "y"));
    assert!(doc("a", "x") != doc("b", "x"));
}

#[test]
fn document_order_is_by_path_then_contents() {
    assert!(doc("a", "z") < doc("b", "a"));
    assert!(doc("a", "x") < doc("a", "y"));
    assert!(doc("a", "x") <= doc("a", "x"));
    assert!(doc("b", "") > doc("a", "zzz"));
    assert!(doc("a", "") < doc("a", "a"));
    assert!(doc("a", "x") < doc("ab", ""));
    assert!(doc("Z", "") < doc("a", ""));
    assert!(doc("z", "") < doc("é", ""));
}

#[test]
fn document_comparisons_agree() {
    let documents = [doc("", ""), doc("a", ""), doc("a", "b"), doc("ab", ""), doc("b", "a"), doc("é", "z")];
    for (i, left) in documents.iter().enumerate() {
        for (j, right) in documents.iter().enumerate() {
            assert_eq!(left.partial_cmp(right), Some(i.cmp(&j)));
            assert_eq!(left.cmp(right), i.cmp(&j));
            assert_eq!(left == right, i == j);
            assert_eq!(left.cmp(right) == Ordering::Equal, left == right);
        }
    }
}

#[test]
fn document_duplicate_is_equal() {
    let document = doc("a.md", "text");
    assert_eq!(document.duplicate(), document);
}

#[test]
fn index_starts_without_terms() {
    let index = Index::new();
    assert_eq!(index.len(), 0);
    assert_eq!(index.lookup("hello"), Vec::<Document>::new());
}

#[test]
fn update_records_the_document_under_each_token() {
    let mut index = Index::new();
    let a = doc("a.txt", "hello world");
    index.update(&a, &strings(&["hello", "world"]));
    assert_eq!(index.len(), 2);
    assert_eq!(index.lookup("hello"), vec![a.clone()]);
    assert_eq!(index.lookup("world"), vec![a.clone()]);
    assert_eq!(index.lookup("Hello"), Vec::<Document>::new());
    assert_eq!(index.lookup(""), Vec::<Document>::new());
}

#[test]
fn update_counts_a_repeated_token_once() {
    let mut index = Index::new();
    let a = doc("a.txt", "dog dog dog");
    index.update(&a, &strings(&["dog", "dog", "dog"]));
    assert_eq!(index.len(), 1);
    assert_eq!(index.lookup("dog"), vec![a]);
}

#[test]
fn update_without_tokens_adds_nothing() {
    let mut index = Index::new();
    index.update(&doc("a.txt", ""), &Vec::new());
    assert_eq!(index.len(), 0);
}

#[test]
fn update_gathers_the_documents_of_a_term() {
    let mut index = Index::new();
    let a = doc("a.txt", "hello world");
    let b = doc("b.txt", "hello there");
    index.update(&a, &strings(&["hello", "world"]));
    index.update(&b, &strings(&["hello", "there"]));
    assert_eq!(index.len(), 3);
    assert_eq!(sorted(index.lookup("hello")), vec![a.clone(), b.clone()]);
    assert_eq!(index.lookup("world"), vec![a]);
    assert_eq!(index.lookup("there"), vec![b]);
}

#[test]
fn update_twice_is_update_once() {
    let a = doc("a.txt", "hello world");
    let b = doc("b.txt", "hello there");
    let tokens = strings(&["hello", "world", "hello"]);

    let mut once = Index::new();
    once.update(&b, &strings(&["hello", "there"]));
    once.update(&a, &tokens);

    let mut twice = Index::new();
    twice.update(&b, &strings(&["hello", "there"]));
    twice.update(&a, &tokens);
    twice.update(&a, &tokens);

    assert_eq!(twice.len(), once.len());
    for term in ["hello", "world", "there"] {
        assert_eq!(sorted(twice.lookup(term)), sorted(once.lookup(term)));
    }
    assert_eq!(sorted(twice.lookup("hello")), vec![a.clone(), b]);
    assert_eq!(twice.lookup("world"), vec![a]);
}

#[test]
fn update_of_a_known_path_replaces_its_document() {
    let mut index = Index::new();
    let old = doc("a.txt", "hello world");
    let new = doc("a.txt", "hello moon");
    let other = doc("b.txt", "world");
    index.update(&old, &strings(&["hello", "world"]));
    index.update(&other, &strings(&["world"]));
    index.update(&new, &strings(&["hello", "moon"]));
    assert_eq!(index.len(), 3);
    assert_eq!(index.lookup("hello"), vec![new.clone()]);
    assert_eq!(index.lookup("moon"), vec![new]);
    assert_eq!(index.lookup("world"), vec![other]);
}

#[test]
fn update_drops_a_term_that_no_document_has_any_more() {
    let mut index = Index::new();
    index.update(&doc("a.txt", "hello world"), &strings(&["hello", "world"]));
    index.update(&doc("a.txt", "hello"), &strings(&["hello"]));
    assert_eq!(index.len(), 1);
    assert_eq!(index.lookup("world"), Vec::<Document>::new());
    index.update(&doc("a.txt", ""), &Vec::new());
    assert_eq!(index.len(), 0);
    assert_eq!(index.lookup("hello"), Vec::<Document>::new());
}

#[test]
fn update_does_not_depend_on_the_order_of_tokens() {
    let a = doc("a.txt", "x y z");
    let mut forward = Index::new();
    forward.update(&a, &strings(&["x", "y", "z"]));
    let mut backward = Index::new();
    backward.update(&a, &strings(&["z", "y", "x", "z"]));
    assert_eq!(forward.len(), backward.len());
    for term in ["x", "y", "z"] {
        assert_eq!(forward.lookup(term), backward.lookup(term));
    }
}

#[test]
fn updates_of_different_paths_commute() {
    let a = doc("a.txt", "one two");
    let b = doc("b.txt", "two three");
    let mut ab = Index::new();
    ab.update(&a, &strings(&["one", "two"]));
    ab.update(&b, &strings(&["two", "three"]));
    let mut ba = Index::new();
    ba.update(&b, &strings(&["two", "three"]));
    ba.update(&a, &strings(&["one", "two"]));
    assert_eq!(ab.len(), ba.len());
    for term in ["one", "two", "three"] {
        assert_eq!(sorted(ab.lookup(term)), sorted(ba.lookup(term)));
    }
}

#[test]
fn store_processed_text_in_index_indexes_the_terms_of_the_contents() {
    let mut index = Index::new();
    let a = doc("a.txt", "Hello, world! The world is round.");
    index.store_processed_text_in_index(&a);
    assert_eq!(index.len(), 3);
    assert_eq!(index.lookup("hello"), vec![a.clone()]);
    assert_eq!(index.lookup("world"), vec![a.clone()]);
    assert_eq!(index.lookup("round"), vec![a]);
    assert_eq!(index.lookup("the"), Vec::<Document>::new());
    assert_eq!(index.lookup("is"), Vec::<Document>::new());
    assert_eq!(index.lookup("Hello"), Vec::<Document>::new());
}

#[test]
fn store_processed_text_in_index_twice_is_once() {
    let mut index = Index::new();
    let a = doc("a.txt", "Hello, world!");
    index.store_processed_text_in_index(&a);
    index.store_processed_text_in_index(&a);
    assert_eq!(index.len(), 2);
    assert_eq!(index.lookup("hello"), vec![a.clone()]);
    assert_eq!(index.lookup("world"), vec![a]);
}
