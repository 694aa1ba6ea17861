use ceridwen::clock::Interval;
use ceridwen::clock::Timestamp;
use ceridwen::error::CeridwenError;
use ceridwen::index_sled::Index;
use ceridwen::rss_ingester::feed_url;
use ceridwen::rss_ingester::index_items_at;
use ceridwen::rss_ingester::item_page;
use ceridwen::rss_ingester::read_feed;
use ceridwen::rss_ingester::FeedItem;

const FEED: &str = r#"<?xml version="1.0" encoding="UTF-8"?>
<rss version="2.0" xmlns:content="http://purl.org/rss/1.0/modules/content/">
  <channel>
    <title>Example</title>
    <link>https://example.com/</link>
    <description>An example feed</description>
    <item>
      <title>First &amp; foremost</title>
      <link>https://example.com/first</link>
      <description>About the first</description>
      <pubDate>Fri, 02 Feb 2024 09:03:51 GMT</pubDate>
      <content:encoded>The whole first text</content:encoded>
    </item>
    <item>
      <link>https://example.com/second</link>
      <description>About the second</description>
    </item>
    <item>
      <title>No link</title>
    </item>
  </channel>
</rss>"#;

fn text(value: &str) -> Option<String> {
    Some(value.to_string())
}

#[test]
fn read_feed_copies_the_items() {
    let items = read_feed(FEED.as_bytes()).unwrap();
    assert_eq!(
        items,
        vec![
            FeedItem {
                link: text("https://example.com/first"),
                title: text("First & foremost"),
                content: text("The whole first text"),
                description: text("About the first"),
                pub_date: text("Fri, 02 Feb 2024 09:03:51 GMT"),
            },
            FeedItem {
                link: text("https://example.com/second"),
                title: None,
                content: None,
                description: text("About the second"),
                pub_date: None,
            },
            FeedItem { link: None, title: text("No link"), content: None, description: None, pub_date: None },
        ]
    );
}

#[test]
fn read_feed_refuses_what_is_no_feed() {
    assert!(matches!(read_feed(b"<html></html>"), Err(CeridwenError::RSSError(_))));
    assert!(matches!(read_feed(b""), Err(CeridwenError::RSSError(_))));
}

#[test]
fn item_page_takes_content_before_description() {
    let items = read_feed(FEED.as_bytes()).unwrap();
    let first = item_page(&items[0]).unwrap().unwrap();
    assert_eq!(first.url.as_str(), "https://example.com/first");
    assert_eq!(first.title, "First & foremost");
    assert_eq!(first.content, "The whole first text");
    let second = item_page(&items[1]).unwrap().unwrap();
    assert_eq!(second.title, "No title");
    assert_eq!(second.content, "About the second");
    assert!(item_page(&items[2]).unwrap().is_none());
}

#[test]
fn item_page_has_a_text_for_an_item_without_any() {
    let item = FeedItem { link: text("https://example.com/x"), title: None, content: None, description: None, pub_date: None };
    let page = item_page(&item).unwrap().unwrap();
    assert_eq!(page.title, "No title");
    assert_eq!(page.content, "no content");
}

#[test]
fn item_page_refuses_a_link_that_is_no_url() {
    let item = FeedItem { link: text("not a url"), title: None, content: None, description: None, pub_date: None };
    assert!(matches!(item_page(&item), Err(CeridwenError::UrlParsing(_))));
}

#[test]
fn index_items_indexes_the_items_with_a_link() {
    let words = sled::Config::new().temporary(true).open().unwrap();
    let pages = sled::Config::new().temporary(true).open().unwrap();
    let urls = sled::Config::new().temporary(true).open().unwrap();
    let mut index = Index::new(words, pages.clone(), urls.clone(), sled::Config::new().temporary(true).open().unwrap());
    let items = read_feed(FEED.as_bytes()).unwrap();
    let count = index_items_at(&mut index, &items, Interval::days(7), Timestamp { unix_nanos: 0 }).unwrap();
    assert_eq!(count, 2);
    assert_eq!(pages.len(), 2);
    assert_eq!(urls.len(), 2);
    let found = index.search("foremost").unwrap();
    assert_eq!(found.len(), 1);
    assert_eq!(found[0].url, "https://example.com/first");
}

#[test]
fn index_items_stops_at_the_first_error() {
    let words = sled::Config::new().temporary(true).open().unwrap();
    let pages = sled::Config::new().temporary(true).open().unwrap();
    let urls = sled::Config::new().temporary(true).open().unwrap();
    let mut index = Index::new(words, pages.clone(), urls, sled::Config::new().temporary(true).open().unwrap());
    let items = vec![
        FeedItem { link: text("https://example.com/a"), title: None, content: None, description: None, pub_date: None },
        FeedItem { link: text("nothing"), title: None, content: None, description: None, pub_date: None },
        FeedItem { link: text("https://example.com/c"), title: None, content: None, description: None, pub_date: None },
    ];
    let result = index_items_at(&mut index, &items, Interval::days(7), Timestamp { unix_nanos: 0 });
    assert!(matches!(result, Err(CeridwenError::UrlParsing(_))));
    assert_eq!(pages.len(), 1);
}

#[test]
fn feed_url_needs_a_base_url() {
    assert!(matches!(feed_url(&None), Err(CeridwenError::MissingBaseUrl)));
    assert!(matches!(feed_url(&text("::")), Err(CeridwenError::UrlParsing(_))));
    assert_eq!(feed_url(&text("https://example.com/feed.xml")).unwrap().path(), "/feed.xml");
}
