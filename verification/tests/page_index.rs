use ceridwen::data::PageUrl;
use ceridwen::error::CeridwenError;
use ceridwen::page_index::split;
use ceridwen::page_index::url_to_page_path;
use ceridwen::page_index::url_to_path_with;
use ceridwen::page_index::url_to_words_path;
use ceridwen::utils::normalise_path;
use ceridwen::word_index::word_to_path;
use ceridwen::word_index::word_to_path_with;

#[test]
fn tests_url_to_path() {
    let test_url = PageUrl::parse("https://example.com/foo/bar/index.html?q=something").unwrap();

    let result = url_to_words_path("/tmp/ceridwen", &test_url).unwrap();

    let expected = normalise_path(
        "/tmp/ceridwen/pages/com/example/foo/bar/index.html/edd38c9673866b98b2397ee88345fdbe3d1177e5a2ba71b97ad1f71ce40443e6.words"
    );

    assert_eq!(normalise_path(&result), expected)
}

#[test]
fn page_path_has_its_own_extension() {
    let url = PageUrl::parse("https://example.com/foo/bar/index.html?q=something").unwrap();
    let words = url_to_words_path("/tmp/ceridwen", &url).unwrap();
    let page = url_to_page_path("/tmp/ceridwen", &url).unwrap();
    assert_eq!(words.strip_suffix(".words"), page.strip_suffix(".page"));
    assert!(page.ends_with(".page"));
}

#[test]
fn url_to_path_with_a_given_separator() {
    let url = PageUrl::parse("https://www.example.co.uk/a//b/#top").unwrap();
    let path = url_to_path_with("root/", &url, '/').unwrap();
    let (directory, name) = path.rsplit_once('/').unwrap();
    assert_eq!(directory, "root/pages/uk/co/example/www/a/b");
    assert_eq!(name.len(), 64);
    assert!(name.chars().all(|c| c.is_ascii_digit() || ('a'..='f').contains(&c)));
    let other = PageUrl::parse("https://www.example.co.uk/a//b/#bottom").unwrap();
    assert_ne!(url_to_path_with("root/", &other, '/').unwrap(), path);
    let windows = url_to_path_with("root", &url, '\\').unwrap();
    assert!(windows.starts_with("root\\pages\\uk\\co\\example\\www\\a\\b\\"));
}

#[test]
fn url_to_path_needs_a_host() {
    let url = PageUrl::parse("mailto:someone@example.com").unwrap();
    match url_to_path_with("root", &url, '/') {
        Err(CeridwenError::MissingHost(text)) => assert_eq!(text, "mailto:someone@example.com"),
        other => panic!("{:?}", other),
    }
}

#[test]
fn split_gives_one_piece_more_than_separators() {
    assert_eq!(split("a.b.c", '.'), vec!["a", "b", "c"]);
    assert_eq!(split("", '.'), vec![""]);
    assert_eq!(split("a.", '.'), vec!["a", ""]);
    assert_eq!(split(".a..b", '.'), vec!["", "a", "", "b"]);
}

#[test]
fn word_to_path_sorts_by_first_character_and_length() {
    assert_eq!(word_to_path_with("/idx", "cat", '/').unwrap(), "/idx/words/c/3/cat.index");
    assert_eq!(word_to_path_with("/idx/", "école", '/').unwrap(), "/idx/words/é/6/école.index");
    assert_eq!(word_to_path_with("", "x", '/').unwrap(), "words/x/1/x.index");
    assert_eq!(word_to_path_with("/idx", "", '/'), None);
    assert_eq!(
        normalise_path(&word_to_path("/idx", "cat").unwrap()),
        normalise_path("/idx/words/c/3/cat.index")
    );
}
