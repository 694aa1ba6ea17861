use ceridwen::text_tools::count_words;
use ceridwen::text_tools::filter;
use ceridwen::text_tools::tokenise;

fn strings(words: &[&str]) -> Vec<String> {
    words.iter().map(|w| w.to_string()).collect()
}

#[test]
fn tokenise_basic() {
    assert_eq!(tokenise("Hello, World!! Hello."), strings(&["hello", "world", "hello"]));
}

#[test]
fn tokenise_empty_text() {
    assert_eq!(tokenise(""), Vec::<String>::new());
    assert_eq!(tokenise(" \t\n "), Vec::<String>::new());
}

#[test]
fn tokenise_keeps_empty_tokens() {
    assert_eq!(tokenise("a !! b"), strings(&["a", "", "b"]));
}

#[test]
fn tokenise_removes_punctuation_inside_words() {
    assert_eq!(tokenise("don't (stop) a=b x/y"), strings(&["dont", "stop", "ab", "xy"]));
}

#[test]
fn tokenise_removes_the_half_ring() {
    assert_eq!(tokenise("ʿAbd"), strings(&["abd"]));
}

#[test]
fn tokenise_lowercases_beyond_ascii() {
    assert_eq!(tokenise("ÉCOLE Straße ΑΣ"), strings(&["école", "straße", "ας"]));
}

#[test]
fn tokenise_splits_on_any_white_space() {
    assert_eq!(tokenise("one\ttwo\nthree\u{a0}four"), strings(&["one", "two", "three", "four"]));
}

#[test]
fn tokenise_is_idempotent_on_its_tokens() {
    for text in ["Hello, World!! Hello.", "The quick brown fox", "ÉCOLE x1 y-2"] {
        let tokens = tokenise(text);
        assert_eq!(tokenise(&tokens.join(" ")), tokens);
    }
}

#[test]
fn filter_drops_stop_words_and_empty_strings() {
    let words = strings(&["the", "cat", "", "and", "dog", "is", "to", "should", "shoulder"]);
    assert_eq!(filter(words), strings(&["cat", "dog", "shoulder"]));
}

#[test]
fn filter_keeps_order_and_repeats() {
    let words = strings(&["b", "a", "b", "what", "b"]);
    assert_eq!(filter(words), strings(&["b", "b", "b"]));
}

#[test]
fn count_words_gives_the_bag() {
    let mut counts = count_words(strings(&["a", "b", "a", "c", "a"]));
    counts.sort();
    assert_eq!(
        counts,
        vec![("a".to_string(), 3), ("b".to_string(), 1), ("c".to_string(), 1)]
    );
}

#[test]
fn count_words_of_nothing() {
    assert_eq!(count_words(Vec::new()), Vec::<(String, u64)>::new());
}

#[test]
fn count_words_keeps_first_occurrence_order() {
    let counts = count_words(strings(&["z", "y", "z", "x"]));
    assert_eq!(
        counts,
        vec![("z".to_string(), 2), ("y".to_string(), 1), ("x".to_string(), 1)]
    );
}
