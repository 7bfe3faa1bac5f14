use indexer::{process_text, remove_unwanted_characters, tokenize};

#[test]
fn test_remove_unwanted_characters() {
    let tests: Vec<(&str, &str)> = vec![
        ("Hello, world!", "Hello world"),
        ("Hello, world! 123", "Hello world 123"),
        ("Hello, world! 123 $%^&*()", "Hello world 123 "),
    ];

    for (input, expected_output) in tests {
        let output = remove_unwanted_characters(input);
        assert_eq!(output, expected_output);
    }
}

#[test]
fn test_tokenize() {
    let tests: Vec<(&str, Vec<&str>)> = vec![
        ("Hello, world!", vec!["hello", ",", "world", "!"]),
        ("Hello, world! 123", vec!["hello", ",", "world", "!", "123"]),
        (
            "Hello, world! 123 $%^&*()",
            vec![
                "hello", ",", "world", "!", "123", "$", "%", "^", "&", "*", "(", ")",
            ],
        ),
    ];

    for (input, expected_output) in tests {
        let output = tokenize(&input.to_lowercase());
        assert_eq!(output, expected_output);
    }
}

#[test]
fn test_process_text() {
    let input = "Hello, world!";
    let expected_output = "hello world";
    let output = process_text(input);
    assert_eq!(output, expected_output);
}

#[test]
fn test_process_spanish_text() {
    let input = "Hola, mundo este idioma es español!";
    let expected_output = "hola mundo este idioma es español";
    let output = process_text(input);
    assert_eq!(output, expected_output);
}

#[test]
fn normalize_lowercases_and_strips_punctuation() {
    assert_eq!(indexer::normalize("Hello, world!"), "hello world");
    assert_eq!(indexer::normalize("Hello, world! 123 $%^&*()"), "hello world 123 ");
}

#[test]
fn normalize_merges_words_that_only_punctuation_kept_apart() {
    assert_eq!(indexer::normalize("word1,word2"), "word1word2");
    assert_eq!(remove_unwanted_characters("word1,word2"), "word1word2");
}

#[test]
fn normalize_of_the_empty_text_is_empty() {
    assert_eq!(indexer::normalize(""), "");
    assert_eq!(remove_unwanted_characters(""), "");
}

#[test]
fn normalize_folds_accented_capitals() {
    assert_eq!(indexer::normalize("ESPAÑOL Ñandú"), "español ñandú");
    assert_eq!(indexer::normalize("ÀÉÎÕÜ"), "àéîõü");
}

#[test]
fn normalize_keeps_every_kind_of_whitespace() {
    assert_eq!(indexer::normalize("a\tb\nc\u{00a0}d\u{3000}e"), "a\tb\nc\u{00a0}d\u{3000}e");
}

#[test]
fn normalize_drops_symbols_and_control_characters() {
    assert_eq!(indexer::normalize("a\u{0000}b\u{0007}c€d→e"), "abcde");
}

#[test]
fn normalize_leaves_only_alphanumeric_or_whitespace() {
    let inputs = ["Hello, world!", "a-b_c.d", "¿Qué tal? ¡Bien!", "x²+y³=½", "日本語、テキスト。", "tab\there"];
    for input in inputs {
        let output = indexer::normalize(input);
        assert!(output.chars().all(|c| c.is_alphanumeric() || c.is_whitespace()));
    }
}

#[test]
fn normalize_twice_is_normalize_once() {
    let inputs = [
        "Hello, world!",
        "Hello, world! 123 $%^&*()",
        "ΟΔΥΣΣΕΥΣ, ΣΟΦΟΣ.",
        "İstanbul",
        "ǅungla ǈiljan",
        "Straße ẞ",
        "",
        "  spaced   out  ",
    ];
    for input in inputs {
        let once = indexer::normalize(input);
        let twice = indexer::normalize(&once);
        assert_eq!(twice, once);
    }
}

#[test]
fn remove_unwanted_characters_twice_is_once() {
    let inputs = ["Hello, World!", "A.B.C", "ΣΟΦΟΣ!", "İ"];
    for input in inputs {
        let once = remove_unwanted_characters(input);
        let twice = remove_unwanted_characters(&once);
        assert_eq!(twice, once);
    }
}

#[test]
fn remove_unwanted_characters_keeps_case() {
    assert_eq!(remove_unwanted_characters("Hello, World!"), "Hello World");
}

#[test]
fn tokenize_keeps_case() {
    assert_eq!(tokenize("Hello, world!"), vec!["Hello", ",", "world", "!"]);
}

#[test]
fn tokenize_consumes_whitespace() {
    assert_eq!(tokenize("hello world"), vec!["hello", "world"]);
    assert_eq!(tokenize("  hello \t\n world  "), vec!["hello", "world"]);
    assert_eq!(tokenize(" \t\n "), Vec::<String>::new());
    assert_eq!(tokenize(""), Vec::<String>::new());
}

#[test]
fn tokenize_keeps_runs_of_letters_and_digits_whole() {
    assert_eq!(tokenize("abc123 x9"), vec!["abc123", "x9"]);
    assert_eq!(tokenize("can't 32.5"), vec!["can't", "32.5"]);
}

#[test]
fn tokenize_gives_the_same_tokens_each_time() {
    let text = "The quick (\"brown\") fox can't jump 32.3 feet, right?";
    assert_eq!(tokenize(text), tokenize(text));
    assert_eq!(
        tokenize(text),
        vec![
            "The", "quick", "(", "\"", "brown", "\"", ")", "fox", "can't", "jump", "32.3", "feet",
            ",", "right", "?"
        ]
    );
}

#[test]
fn drop_whitespace_runs_keeps_the_rest_in_order() {
    let segments = vec![
        " ".to_string(),
        "a".to_string(),
        "\t\n".to_string(),
        ",".to_string(),
        " b".to_string(),
        "".to_string(),
    ];
    assert_eq!(indexer::drop_whitespace_runs(segments), vec!["a", ",", " b"]);
}

#[test]
fn is_whitespace_only_tells_runs_apart() {
    assert!(indexer::is_whitespace_only(" \t\u{00a0}"));
    assert!(indexer::is_whitespace_only(""));
    assert!(!indexer::is_whitespace_only(" a "));
}

#[test]
fn process_text_of_the_empty_text_is_empty() {
    assert_eq!(process_text(""), "");
    assert_eq!(process_text("?!"), "");
}

#[test]
fn process_text_drops_english_stop_words() {
    assert_eq!(process_text("The cat sat on the mat."), "cat sat mat");
}

#[test]
fn process_text_keeps_repeated_terms() {
    assert_eq!(process_text("Dog, dog; DOG!"), "dog dog dog");
}

#[test]
fn terms_are_the_parts_of_the_processed_text() {
    assert_eq!(indexer::terms("Hello, world! The end."), vec!["hello", "world", "end"]);
    assert_eq!(indexer::terms(""), Vec::<String>::new());
}

#[test]
fn join_puts_the_separator_between_neighbours() {
    let parts = vec!["a".to_string(), "b".to_string(), "c".to_string()];
    assert_eq!(indexer::join(&parts, " "), "a b c");
    assert_eq!(indexer::join(&parts, ", "), "a, b, c");
    assert_eq!(indexer::join(&parts, ""), "abc");
    assert_eq!(indexer::join(&vec!["a".to_string()], " "), "a");
    assert_eq!(indexer::join(&Vec::new(), " "), "");
    assert_eq!(indexer::join(&vec!["".to_string(), "".to_string()], "-"), "-");
}
