use indexer::{contains_word, filter_stop_words, remove_stop_words, retain_unlisted, Language};

fn strings(words: &[&str]) -> Vec<String> {
    words.iter().map(|w| w.to_string()).collect()
}

#[test]
fn remove_stop_words_leaves_the_content_words() {
    assert_eq!(remove_stop_words(strings(&["the", "cat", "on", "the", "mat"])), vec!["cat", "mat"]);
}

#[test]
fn remove_stop_words_of_stop_words_and_one_content_word() {
    assert_eq!(remove_stop_words(strings(&["this", "is", "a", "cat", "of", "mine"])), vec!["cat", "mine"]);
    assert_eq!(remove_stop_words(strings(&["it", "was", "the", "cat"])), vec!["cat"]);
}

#[test]
fn remove_stop_words_matches_case_exactly() {
    assert_eq!(remove_stop_words(strings(&["The", "the", "THE"])), vec!["The", "THE"]);
}

#[test]
fn remove_stop_words_keeps_inflected_forms() {
    assert_eq!(remove_stop_words(strings(&["on", "ons", "other", "others"])), vec!["ons", "others"]);
}

#[test]
fn remove_stop_words_keeps_order_and_repetitions() {
    assert_eq!(
        remove_stop_words(strings(&["b", "the", "a", "b", "c", "and", "b"])),
        vec!["b", "b", "c", "b"]
    );
}

#[test]
fn remove_stop_words_of_nothing_is_nothing() {
    assert_eq!(remove_stop_words(Vec::new()), Vec::<String>::new());
}

#[test]
fn remove_stop_words_keeps_spanish_stop_words() {
    assert_eq!(
        remove_stop_words(strings(&["hola", "mundo", "este", "idioma", "es", "español"])),
        vec!["hola", "mundo", "este", "idioma", "es", "español"]
    );
}

#[test]
fn filter_stop_words_uses_the_list_of_the_language() {
    let tokens = ["este", "idioma", "es", "the", "español"];
    assert_eq!(filter_stop_words(strings(&tokens), Language::Spanish), vec!["idioma", "the", "español"]);
    assert_eq!(
        filter_stop_words(strings(&tokens), Language::English),
        vec!["este", "idioma", "es", "español"]
    );
}

#[test]
fn filter_stop_words_falls_back_to_english() {
    let tokens = ["este", "idioma", "es", "the", "español"];
    assert_eq!(
        filter_stop_words(strings(&tokens), Language::Other),
        filter_stop_words(strings(&tokens), Language::English)
    );
}

#[test]
fn retain_unlisted_drops_exactly_the_listed() {
    let stops = strings(&["x", "yy"]);
    assert_eq!(retain_unlisted(strings(&["x", "y", "yy", "xx", "x"]), &stops), vec!["y", "xx"]);
    assert_eq!(retain_unlisted(strings(&["x", "y"]), &Vec::new()), vec!["x", "y"]);
    assert_eq!(retain_unlisted(Vec::new(), &stops), Vec::<String>::new());
}

#[test]
fn contains_word_finds_equal_words_only() {
    let words = strings(&["alpha", "beta"]);
    assert!(contains_word(&words, &"beta".to_string()));
    assert!(!contains_word(&words, &"Beta".to_string()));
    assert!(!contains_word(&words, &"bet".to_string()));
    assert!(!contains_word(&Vec::new(), &"beta".to_string()));
}
