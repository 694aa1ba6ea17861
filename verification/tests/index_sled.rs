use ceridwen::clock::Interval;
use ceridwen::clock::Timestamp;
use ceridwen::data::Page;
use ceridwen::data::PageUrl;
use ceridwen::data::SearchResult;
use ceridwen::error::CeridwenError;
use ceridwen::index_sled::Index;

fn temporary() -> sled::Db {
    sled::Config::new().temporary(true).open().unwrap()
}

fn empty_index() -> (Index, sled::Db, sled::Db, sled::Db) {
    let words = temporary();
    let pages = temporary();
    let urls = temporary();
    (Index::new(words.clone(), pages.clone(), urls.clone(), temporary()), words, pages, urls)
}

fn page(url: &str, title: &str, content: &str) -> Page {
    Page { url: PageUrl::parse(url).unwrap(), title: title.to_string(), content: content.to_string() }
}

fn at(seconds: i128) -> Timestamp {
    Timestamp { unix_nanos: seconds * 1_000_000_000 }
}

#[test]
fn store_page_then_look_it_up() {
    let (mut index, _words, pages, urls) = empty_index();
    let cats = page("https://example.com/cats", "Cats", "All about cats");
    let (id, record) = index.store_page_at(&cats, at(1_000)).unwrap();
    assert_eq!(record.url, "https://example.com/cats");
    assert_eq!(record.title, "Cats");
    assert_eq!(record.description, "All about cats");
    assert_eq!(record.last_index, at(1_000));
    assert_eq!(urls.get("https://example.com/cats").unwrap().unwrap().as_ref(), id.to_be_bytes());
    assert!(pages.get(id.to_be_bytes()).unwrap().is_some());
    assert_eq!(index.look_up_page(&cats).unwrap(), Some((id, record.clone())));
    assert_eq!(index.lookup_id(id).unwrap(), Some(record));
    assert_eq!(index.last_index_time(&cats).unwrap(), Some(at(1_000)));
}

#[test]
fn look_up_of_a_page_that_is_not_there() {
    let (index, _words, _pages, _urls) = empty_index();
    let cats = page("https://example.com/cats", "Cats", "All about cats");
    assert_eq!(index.look_up_page(&cats).unwrap(), None);
    assert_eq!(index.lookup_id(7).unwrap(), None);
    assert_eq!(index.last_index_time(&cats).unwrap(), None);
}

#[test]
fn store_page_ids_increase() {
    let (mut index, _words, _pages, _urls) = empty_index();
    let (first, _) = index.store_page_at(&page("https://a.example/", "a", "a"), at(1)).unwrap();
    let (second, _) = index.store_page_at(&page("https://b.example/", "b", "b"), at(2)).unwrap();
    let (third, _) = index.store_page(&page("https://c.example/", "c", "c")).unwrap();
    assert!(first < second);
    assert!(second < third);
}

#[test]
fn url_index_without_record_is_a_bad_record() {
    let (index, _words, _pages, urls) = empty_index();
    urls.insert("https://example.com/cats", &9u64.to_be_bytes()).unwrap();
    let cats = page("https://example.com/cats", "Cats", "All about cats");
    assert!(matches!(index.look_up_page(&cats), Err(CeridwenError::BadIndexRecord)));
    assert_eq!(index.last_index_time(&cats).unwrap(), None);
}

#[test]
fn url_index_with_a_short_id_is_a_bad_record() {
    let (index, _words, _pages, urls) = empty_index();
    urls.insert("https://example.com/cats", &[1u8, 2, 3]).unwrap();
    let cats = page("https://example.com/cats", "Cats", "All about cats");
    assert!(matches!(index.look_up_page(&cats), Err(CeridwenError::BadIndexRecord)));
}

#[test]
fn page_store_with_other_bytes_is_a_bad_record() {
    let (index, _words, pages, _urls) = empty_index();
    pages.insert(5u64.to_be_bytes(), "not json").unwrap();
    assert!(matches!(index.lookup_id(5), Err(CeridwenError::BadIndexRecord)));
}

#[test]
fn store_words_writes_one_posting_for_each_term() {
    let (mut index, words, _pages, _urls) = empty_index();
    index.store_words(3, &vec![("cat".to_string(), 2), ("dog".to_string(), 1)]).unwrap();
    let mut key = b"cat=".to_vec();
    key.extend_from_slice(&3u64.to_be_bytes());
    assert_eq!(words.get(&key).unwrap().unwrap().as_ref(), 2u64.to_be_bytes());
    let mut key = b"dog=".to_vec();
    key.extend_from_slice(&3u64.to_be_bytes());
    assert_eq!(words.get(&key).unwrap().unwrap().as_ref(), 1u64.to_be_bytes());
    assert_eq!(words.len(), 2);
}

#[test]
fn add_page_indexes_title_and_content() {
    let (mut index, words, pages, urls) = empty_index();
    let cats = page("https://example.com/cats", "The Cats", "cats and dogs, cats!");
    index.add_page_at(&cats, Interval::days(1), at(1_000)).unwrap();
    assert_eq!(urls.len(), 1);
    assert_eq!(pages.len(), 1);
    let (id, _) = index.look_up_page(&cats).unwrap().unwrap();
    let mut key = b"cats=".to_vec();
    key.extend_from_slice(&id.to_be_bytes());
    assert_eq!(words.get(&key).unwrap().unwrap().as_ref(), 3u64.to_be_bytes());
    let mut key = b"dogs=".to_vec();
    key.extend_from_slice(&id.to_be_bytes());
    assert_eq!(words.get(&key).unwrap().unwrap().as_ref(), 1u64.to_be_bytes());
    // "the" and "and" are stop words
    assert_eq!(words.len(), 2);
}

#[test]
fn add_page_twice_within_the_interval_changes_nothing() {
    let (mut index, words, pages, urls) = empty_index();
    let first = page("https://example.com/cats", "Cats", "cats");
    index.add_page_at(&first, Interval::days(1), at(1_000)).unwrap();
    let record = index.look_up_page(&first).unwrap().unwrap();
    let second = page("https://example.com/cats", "Cats and more", "cats dogs birds");
    index.add_page_at(&second, Interval::days(1), at(1_000 + 86_399)).unwrap();
    assert_eq!(index.look_up_page(&second).unwrap().unwrap(), record);
    assert_eq!(words.len(), 1);
    assert_eq!(pages.len(), 1);
    assert_eq!(urls.len(), 1);
}

#[test]
fn add_page_after_the_interval_indexes_again() {
    let (mut index, words, pages, urls) = empty_index();
    let first = page("https://example.com/cats", "Cats", "cats");
    index.add_page_at(&first, Interval::days(1), at(1_000)).unwrap();
    let (id, _) = index.look_up_page(&first).unwrap().unwrap();
    let second = page("https://example.com/cats", "Cats and more", "cats dogs birds");
    index.add_page_at(&second, Interval::days(1), at(1_000 + 86_400)).unwrap();
    let (same_id, record) = index.look_up_page(&second).unwrap().unwrap();
    assert_eq!(same_id, id);
    assert_eq!(record.title, "Cats and more");
    assert_eq!(record.last_index, at(1_000 + 86_400));
    assert_eq!(words.len(), 3);
    assert_eq!(pages.len(), 1);
    assert_eq!(urls.len(), 1);
}

#[test]
fn add_pages_with_distinct_urls() {
    let (mut index, _words, pages, urls) = empty_index();
    for n in 0..5 {
        let p = page(&format!("https://example.com/{n}"), "title", "content");
        index.add_page(&p, Interval::days(1)).unwrap();
    }
    assert_eq!(urls.len(), 5);
    assert_eq!(pages.len(), 5);
}

#[test]
fn record_bytes_round_trip() {
    let record = SearchResult {
        url: "https://example.com/\"quoted\"".to_string(),
        title: "Tïtle\n".to_string(),
        description: "d".to_string(),
        last_index: Timestamp { unix_nanos: 1_706_864_631_123_456_789 },
    };
    let bytes = record.to_bytes().unwrap();
    let text = String::from_utf8(bytes.clone()).unwrap();
    assert!(text.starts_with('{'));
    assert!(text.contains("\"last_index\":[2024,33,9,3,51,123456789,0,0,0]"));
    assert_eq!(SearchResult::from_bytes(&bytes), Some(record));
}

#[test]
fn record_bytes_need_an_instant_in_range() {
    let record = SearchResult {
        url: "u".to_string(),
        title: "t".to_string(),
        description: "d".to_string(),
        last_index: Timestamp { unix_nanos: i128::MAX },
    };
    assert_eq!(record.to_bytes(), None);
}

#[test]
fn record_is_read_from_what_serde_writes_for_it() {
    let bytes = br#"{"url":"https://e/","title":"T","description":"D","last_index":[1970,1,0,0,1,0,0,0,0]}"#;
    assert_eq!(
        SearchResult::from_bytes(bytes),
        Some(SearchResult {
            url: "https://e/".to_string(),
            title: "T".to_string(),
            description: "D".to_string(),
            last_index: Timestamp { unix_nanos: 1_000_000_000 },
        })
    );
    assert_eq!(SearchResult::from_bytes(b"{}"), None);
}

#[test]
fn description_is_the_first_250_characters() {
    let content: String = "é".repeat(300);
    let p = page("https://example.com/", "t", &content);
    let record = SearchResult::from_page(&p, at(0));
    assert_eq!(record.description.chars().count(), 250);
    assert_eq!(record.description, "é".repeat(250));
    let short = SearchResult::from_page(&page("https://example.com/", "t", "short"), at(0));
    assert_eq!(short.description, "short");
}

#[test]
fn index_load_opens_its_stores() {
    let root_text = format!("/tmp/ceridwen-test-{}", Timestamp::now().unix_nanos);
    let root = std::path::Path::new(&root_text);
    {
        let mut index = Index::load(&root_text).unwrap();
        index.add_page_at(&page("https://example.com/", "title", "content"), Interval::days(1), at(5)).unwrap();
    }
    assert!(root.join("word_index").is_dir());
    assert!(root.join("page_index").is_dir());
    assert!(root.join("page_url_index").is_dir());
    assert!(root.join("page_terms_index").is_dir());
    let index = Index::load(&root_text).unwrap();
    let found = index.look_up_page(&page("https://example.com/", "title", "content")).unwrap();
    assert_eq!(found.unwrap().1.last_index, at(5));
}

fn urls_of(results: &[SearchResult]) -> Vec<&str> {
    results.iter().map(|r| r.url.as_str()).collect()
}

#[test]
fn search_ranks_by_the_sum_of_the_counts() {
    let (mut index, _words, _pages, _urls) = empty_index();
    let one = page("https://example.com/one", "one", "cat cat dog");
    let two = page("https://example.com/two", "two", "dog dog dog");
    index.add_page_at(&one, Interval::days(1), at(1)).unwrap();
    index.add_page_at(&two, Interval::days(1), at(2)).unwrap();
    let (first_id, _) = index.look_up_page(&one).unwrap().unwrap();
    let (second_id, _) = index.look_up_page(&two).unwrap().unwrap();
    // Both pages have the score three: the one with the lower id comes first.
    assert_eq!(index.ranked_pages("cat dog").unwrap(), vec![(first_id, 3), (second_id, 3)]);
    assert_eq!(
        urls_of(&index.search("cat dog").unwrap()),
        vec!["https://example.com/one", "https://example.com/two"]
    );
    assert_eq!(index.ranked_pages("dog").unwrap(), vec![(second_id, 3), (first_id, 1)]);
    assert_eq!(
        urls_of(&index.search("dog").unwrap()),
        vec!["https://example.com/two", "https://example.com/one"]
    );
    assert_eq!(urls_of(&index.search("cat").unwrap()), vec!["https://example.com/one"]);
    assert_eq!(index.search("bird").unwrap(), Vec::<SearchResult>::new());
    assert_eq!(index.search("").unwrap(), Vec::<SearchResult>::new());
}

#[test]
fn search_counts_a_term_as_often_as_the_query_has_it() {
    let (mut index, _words, _pages, _urls) = empty_index();
    let one = page("https://example.com/one", "one", "cat cat dog");
    index.add_page_at(&one, Interval::days(1), at(1)).unwrap();
    let (id, _) = index.look_up_page(&one).unwrap().unwrap();
    assert_eq!(index.ranked_pages("cat cat").unwrap(), vec![(id, 4)]);
}

#[test]
fn search_finds_a_page_by_its_title() {
    let (mut index, _words, _pages, _urls) = empty_index();
    let p = page("https://example.com/owls", "Night Owls", "They hoot.");
    index.add_page_at(&p, Interval::days(1), at(1)).unwrap();
    let results = index.search("Night Owls").unwrap();
    assert_eq!(urls_of(&results), vec!["https://example.com/owls"]);
    assert_eq!(results[0].title, "Night Owls");
    assert_eq!(results[0].description, "They hoot.");
}

#[test]
fn search_does_not_mix_terms_with_a_common_beginning() {
    let (mut index, _words, _pages, _urls) = empty_index();
    index.add_page_at(&page("https://example.com/a", "a", "cat"), Interval::days(1), at(1)).unwrap();
    index.add_page_at(&page("https://example.com/b", "b", "catalogue"), Interval::days(1), at(1)).unwrap();
    assert_eq!(urls_of(&index.search("cat").unwrap()), vec!["https://example.com/a"]);
}

#[test]
fn search_returns_at_most_a_hundred_pages() {
    let (mut index, _words, _pages, _urls) = empty_index();
    for n in 0..120u64 {
        index.store_words(n, &vec![("cat".to_string(), n + 1)]).unwrap();
    }
    let ranked = index.ranked_pages("cat").unwrap();
    assert_eq!(ranked.len(), 100);
    assert_eq!(ranked[0], (119, 120));
    assert_eq!(ranked[99], (20, 21));
}

#[test]
fn search_passes_over_pages_without_a_record() {
    let (mut index, _words, _pages, _urls) = empty_index();
    index.store_words(77, &vec![("cat".to_string(), 9)]).unwrap();
    index.add_page_at(&page("https://example.com/a", "a", "cat"), Interval::days(1), at(1)).unwrap();
    assert_eq!(index.ranked_pages("cat").unwrap().len(), 2);
    assert_eq!(urls_of(&index.search("cat").unwrap()), vec!["https://example.com/a"]);
}

#[test]
fn search_does_not_let_a_score_overflow() {
    let (mut index, _words, _pages, _urls) = empty_index();
    index.store_words(1, &vec![("cat".to_string(), u64::MAX), ("dog".to_string(), 5)]).unwrap();
    assert_eq!(index.ranked_pages("cat dog").unwrap(), vec![(1, u64::MAX)]);
}

#[test]
fn search_refuses_a_posting_that_is_not_well_made() {
    let (index, words, _pages, _urls) = empty_index();
    words.insert("cat=short", &1u64.to_be_bytes()).unwrap();
    assert!(matches!(index.search("cat"), Err(CeridwenError::BadIndexRecord)));
    assert!(matches!(index.ranked_pages("cat"), Err(CeridwenError::BadIndexRecord)));
    assert_eq!(index.search("dog").unwrap(), Vec::<SearchResult>::new());
}

#[test]
fn search_refuses_a_count_that_is_not_well_made() {
    let (index, words, _pages, _urls) = empty_index();
    let mut key = b"cat=".to_vec();
    key.extend_from_slice(&1u64.to_be_bytes());
    words.insert(key, &[1u8, 2]).unwrap();
    assert!(matches!(index.search("cat"), Err(CeridwenError::BadIndexRecord)));
}

#[test]
fn search_refuses_a_record_that_is_none() {
    let (mut index, _words, pages, _urls) = empty_index();
    index.store_words(4, &vec![("cat".to_string(), 1)]).unwrap();
    pages.insert(4u64.to_be_bytes(), "not json").unwrap();
    assert!(matches!(index.search("cat"), Err(CeridwenError::BadIndexRecord)));
}

#[test]
fn index_load_fails_where_no_store_can_be() {
    assert!(matches!(Index::load("/dev/null/ceridwen"), Err(CeridwenError::SledError(_))));
}

fn posting(words: &sled::Db, term: &str, id: u64) -> Option<u64> {
    let mut key = term.as_bytes().to_vec();
    key.push(b'=');
    key.extend_from_slice(&id.to_be_bytes());
    words.get(&key).unwrap().map(|value| u64::from_be_bytes(value.as_ref().try_into().unwrap()))
}

#[test]
fn indexing_again_takes_the_old_postings_out() {
    let (mut index, words, pages, urls) = empty_index();
    let first = page("https://example.com/pets", "Pets", "cats cats dogs");
    index.add_page_at(&first, Interval::days(1), at(1_000)).unwrap();
    let other = page("https://example.com/birds", "Birds", "dogs owls");
    index.add_page_at(&other, Interval::days(1), at(1_000)).unwrap();
    let (id, _) = index.look_up_page(&first).unwrap().unwrap();
    let (other_id, _) = index.look_up_page(&other).unwrap().unwrap();
    assert_eq!(posting(&words, "cats", id), Some(2));
    assert_eq!(posting(&words, "dogs", id), Some(1));
    assert_eq!(posting(&words, "pets", id), Some(1));

    let second = page("https://example.com/pets", "Fish", "dogs dogs fish");
    index.add_page_at(&second, Interval::days(1), at(1_000 + 86_400)).unwrap();
    let (same_id, record) = index.look_up_page(&second).unwrap().unwrap();
    assert_eq!(same_id, id);
    assert_eq!(record.last_index, at(1_000 + 86_400));
    // the terms that the page no longer has are gone
    assert_eq!(posting(&words, "cats", id), None);
    assert_eq!(posting(&words, "pets", id), None);
    // the terms that it has now are counted anew
    assert_eq!(posting(&words, "dogs", id), Some(2));
    assert_eq!(posting(&words, "fish", id), Some(2));
    // the other page is as it was
    assert_eq!(posting(&words, "dogs", other_id), Some(1));
    assert_eq!(posting(&words, "owls", other_id), Some(1));
    assert_eq!(posting(&words, "birds", other_id), Some(1));
    assert_eq!(words.len(), 5);
    assert_eq!(pages.len(), 2);
    assert_eq!(urls.len(), 2);
    assert_eq!(index.search("cats").unwrap(), Vec::<SearchResult>::new());
}

#[test]
fn store_words_replaces_what_was_listed() {
    let (mut index, words, _pages, _urls) = empty_index();
    index.store_words(3, &vec![("cat".to_string(), 2), ("dog".to_string(), 1)]).unwrap();
    index.store_words(4, &vec![("cat".to_string(), 7)]).unwrap();
    index.store_words(3, &vec![("dog".to_string(), 5), ("emu".to_string(), 1)]).unwrap();
    assert_eq!(posting(&words, "cat", 3), None);
    assert_eq!(posting(&words, "dog", 3), Some(5));
    assert_eq!(posting(&words, "emu", 3), Some(1));
    assert_eq!(posting(&words, "cat", 4), Some(7));
    index.store_words(3, &Vec::new()).unwrap();
    assert_eq!(words.len(), 1);
}

#[test]
fn a_term_list_that_is_none_is_a_bad_record() {
    let words = temporary();
    let terms = temporary();
    terms.insert(3u64.to_be_bytes(), &[1u8, 2, 3]).unwrap();
    let mut index = Index::new(words.clone(), temporary(), temporary(), terms);
    let result = index.store_words(3, &vec![("cat".to_string(), 2)]);
    assert!(matches!(result, Err(CeridwenError::BadIndexRecord)));
    assert_eq!(words.len(), 0);
}

#[test]
fn delete_page_takes_a_page_out() {
    let words = temporary();
    let pages = temporary();
    let urls = temporary();
    let terms = temporary();
    let mut index = Index::new(words.clone(), pages.clone(), urls.clone(), terms.clone());
    let pets = page("https://example.com/pets", "Pets", "cats cats dogs");
    let birds = page("https://example.com/birds", "Birds", "dogs owls");
    index.add_page_at(&pets, Interval::days(1), at(1_000)).unwrap();
    index.add_page_at(&birds, Interval::days(1), at(1_000)).unwrap();
    let (id, _) = index.look_up_page(&pets).unwrap().unwrap();
    let (other_id, _) = index.look_up_page(&birds).unwrap().unwrap();

    index.delete_page(&pets.url).unwrap();
    assert_eq!(index.look_up_page(&pets).unwrap(), None);
    assert_eq!(index.look_up_url(&pets.url).unwrap(), None);
    assert_eq!(index.lookup_id(id).unwrap(), None);
    assert_eq!(posting(&words, "cats", id), None);
    assert_eq!(posting(&words, "dogs", id), None);
    assert_eq!(posting(&words, "pets", id), None);
    assert_eq!(terms.get(id.to_be_bytes()).unwrap(), None);
    assert_eq!(index.search("cats").unwrap(), Vec::<SearchResult>::new());
    // the other page is as it was
    assert_eq!(posting(&words, "dogs", other_id), Some(1));
    assert_eq!(posting(&words, "owls", other_id), Some(1));
    assert_eq!(posting(&words, "birds", other_id), Some(1));
    assert_eq!(words.len(), 3);
    assert_eq!(pages.len(), 1);
    assert_eq!(urls.len(), 1);
    assert_eq!(terms.len(), 1);
    let found = index.search("dogs").unwrap();
    assert_eq!(found.len(), 1);
    assert_eq!(found[0].url, "https://example.com/birds");

    // a page that is not there is taken out without more ado
    index.delete_page(&pets.url).unwrap();
    assert_eq!(pages.len(), 1);

    // indexed again, the page gets an id that was never given
    index.add_page_at(&pets, Interval::days(1), at(2_000)).unwrap();
    let (new_id, _) = index.look_up_page(&pets).unwrap().unwrap();
    assert!(new_id > id);
    assert!(new_id > other_id);
    assert_eq!(posting(&words, "cats", new_id), Some(2));
}

#[test]
fn delete_page_refuses_a_bad_record() {
    let words = temporary();
    let pages = temporary();
    let urls = temporary();
    let terms = temporary();
    let mut index = Index::new(words.clone(), pages.clone(), urls.clone(), terms.clone());
    let pets = page("https://example.com/pets", "Pets", "cats");
    index.add_page_at(&pets, Interval::days(1), at(1_000)).unwrap();
    let (id, _) = index.look_up_page(&pets).unwrap().unwrap();
    terms.insert(id.to_be_bytes(), &[9u8]).unwrap();
    assert!(matches!(index.delete_page(&pets.url), Err(CeridwenError::BadIndexRecord)));
    assert_eq!(posting(&words, "cats", id), Some(1));
    assert_eq!(pages.len(), 1);
    assert_eq!(urls.len(), 1);
}
