use std::path::PathBuf;

use ceridwen::utils::normalise_path;
use ceridwen::utils::normalise_path_with;

#[test]
fn lib_test_normalise_path() {
    let input = PathBuf::from("something\\somewhere/with/weird\\things".to_string());
    let result = normalise_path(input.to_str().unwrap());

    let expected =
        PathBuf::from_iter(["something", "somewhere", "with", "weird", "things"].iter())
            .to_str()
            .unwrap()
            .to_string();

    assert_eq!(result, expected);
}

#[test]
fn mod_test_normalise_path() {
    let input = PathBuf::from("something\\somewhere/with/weird\\things".to_string());
    let result = normalise_path(input.to_str().unwrap());

    let expected =
        PathBuf::from_iter(["something", "somewhere", "with", "weird", "things"].iter())
            .to_str()
            .unwrap()
            .to_string();

    assert_eq!(result, expected);
}

#[test]
fn normalise_path_with_a_given_separator() {
    assert_eq!(normalise_path_with("a/b\\c", '\\'), "a\\b\\c");
    assert_eq!(normalise_path_with("a/b\\c", '/'), "a/b/c");
    assert_eq!(normalise_path_with("", '/'), "");
}
