use ceridwen::error::CeridwenError;
use ceridwen::word_index::parse_usize;
use ceridwen::word_index::WordIndexEntry;

#[test]
fn record_round_trip() {
    let entry = WordIndexEntry::new("https://example.com/a".to_string(), 42);
    assert_eq!(entry.to_record(), "https://example.com/a::42");
    let back = WordIndexEntry::from_string(&entry.to_record()).unwrap();
    assert_eq!(back, entry);
}

#[test]
fn record_with_count_zero() {
    let entry = WordIndexEntry::new("u".to_string(), 0);
    assert_eq!(entry.to_record(), "u::0");
    assert_eq!(WordIndexEntry::from_string("u::0").unwrap().count, 0);
}

#[test]
fn record_needs_one_separator() {
    assert!(matches!(WordIndexEntry::from_string("no separator"), Err(CeridwenError::BadIndexRecord)));
    assert!(matches!(WordIndexEntry::from_string("a::b::3"), Err(CeridwenError::BadIndexRecord)));
    assert!(matches!(WordIndexEntry::from_string("a::::3"), Err(CeridwenError::BadIndexRecord)));
}

#[test]
fn record_needs_a_number() {
    assert!(matches!(WordIndexEntry::from_string("a::x"), Err(CeridwenError::ParseInt(_))));
    assert!(matches!(WordIndexEntry::from_string("a::"), Err(CeridwenError::ParseInt(_))));
    assert!(matches!(WordIndexEntry::from_string("a:::5"), Err(CeridwenError::ParseInt(_))));
    assert!(matches!(WordIndexEntry::from_string("a::-5"), Err(CeridwenError::ParseInt(_))));
    assert!(matches!(
        WordIndexEntry::from_string("a::99999999999999999999999999"),
        Err(CeridwenError::ParseInt(_))
    ));
}

#[test]
fn record_url_may_hold_single_colons() {
    let entry = WordIndexEntry::from_string("https://h:80/p::7").unwrap();
    assert_eq!(entry.url, "https://h:80/p");
    assert_eq!(entry.count, 7);
}

#[test]
fn parse_usize_as_std_does() {
    for text in ["0", "7", "+7", "007", "18446744073709551615", "18446744073709551616", "", "+", "1 ", " 1", "1_0", "-1", "٣"] {
        assert_eq!(parse_usize(text), text.parse::<usize>().ok(), "{:?}", text);
    }
}
