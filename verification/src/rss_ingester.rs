//! The RSS ingester: from the items of a feed to pages in the index.

use vstd::prelude::*;
use crate::clock::Interval;
use crate::clock::Timestamp;
use crate::data::Page;
use crate::data::PageUrl;
use crate::data::PageView;
use crate::data::url_parse;
use crate::error::CeridwenError;
use crate::index_sled::Index;
use crate::index_sled::indexed_at;
use crate::index_sled::IndexView;

verus! {

/// An item of a feed, as far as the ingesters look at it.
#[derive(Debug, Clone, PartialEq, Eq)]
pub struct FeedItem {
    pub link: Option<String>,
    pub title: Option<String>,
    pub content: Option<String>,
    pub description: Option<String>,
    /// The date of the item as the feed writes it.
    pub pub_date: Option<String>,
}

/// An item of a feed as a value of specifications.
pub struct FeedItemView {
    pub link: Option<Seq<char>>,
    pub title: Option<Seq<char>>,
    pub content: Option<Seq<char>>,
    pub description: Option<Seq<char>>,
    pub pub_date: Option<Seq<char>>,
}

/// A text that may be missing, as a value of specifications.
pub open spec fn text_view(text: Option<String>) -> Option<Seq<char>> {
    match text {
        Some(text) => Some(text@),
        None => None,
    }
}

impl View for FeedItem {
    type V = FeedItemView;

    open spec fn view(&self) -> FeedItemView {
        FeedItemView {
            link: text_view(self.link),
            title: text_view(self.title),
            content: text_view(self.content),
            description: text_view(self.description),
            pub_date: text_view(self.pub_date),
        }
    }
}

/// The items that `rss::Channel::read_from` finds in the bytes of a feed, in
/// the order of the feed; nothing where the bytes are no feed.
pub uninterp spec fn feed_items(bytes: Seq<u8>) -> Option<Seq<FeedItemView>>;

/// The items of a list as values of specifications.
pub open spec fn item_views(items: Seq<FeedItem>) -> Seq<FeedItemView> {
    items.map_values(|item: FeedItem| item@)
}

/// Calls `rss::Channel::read_from` and copies out of each item its link, its
/// title, its content, its description and its date. What it finds in the
/// bytes is named `feed_items`.
#[verifier::external_body]
fn read_channel(bytes: &[u8]) -> (r: Result<Vec<FeedItem>, rss::Error>)
    ensures
        match r {
            Ok(items) => feed_items(bytes@) == Some(item_views(items@)),
            Err(_) => feed_items(bytes@) is None,
        },
{
    let channel = rss::Channel::read_from(bytes)?;
    let copy = |text: Option<&str>| text.map(|text| text.to_string());
    Ok(channel.items().iter().map(|item| FeedItem {
        link: copy(item.link()),
        title: copy(item.title()),
        content: copy(item.content()),
        description: copy(item.description()),
        pub_date: copy(item.pub_date()),
    }).collect())
}

/// The items of a feed.
pub fn read_feed(bytes: &[u8]) -> (r: Result<Vec<FeedItem>, CeridwenError>)
    ensures
        match r {
            Ok(items) => feed_items(bytes@) == Some(item_views(items@)),
            Err(e) => feed_items(bytes@) is None && e is RSSError,
        },
{
    match read_channel(bytes) {
        Ok(items) => Ok(items),
        Err(e) => Err(CeridwenError::RSSError(e)),
    }
}

/// The title of an item that has none.
pub open spec fn default_title() -> Seq<char> {
    "No title"@
}

/// The text of an item that has neither content nor a description.
pub open spec fn default_content() -> Seq<char> {
    "no content"@
}

/// The title under which an item is indexed.
pub open spec fn item_title(item: FeedItemView) -> Seq<char> {
    match item.title {
        Some(title) => title,
        None => default_title(),
    }
}

/// The text under which an item is indexed: its content, else its
/// description.
pub open spec fn item_content(item: FeedItemView) -> Seq<char> {
    match item.content {
        Some(content) => content,
        None => match item.description {
            Some(description) => description,
            None => default_content(),
        },
    }
}

/// The page that an item of a feed stands for: none where the item has no
/// link. An item whose link is no URL is refused.
pub fn item_page(item: &FeedItem) -> (r: Result<Option<Page>, CeridwenError>)
    ensures
        match item@.link {
            None => r matches Ok(None),
            Some(link) => match r {
                Ok(Some(page)) => url_parse(link) == Some(page.url@) && page@ == (PageView {
                    url: page.url@.text,
                    title: item_title(item@),
                    content: item_content(item@),
                }),
                Ok(None) => false,
                Err(e) => url_parse(link) is None && e is UrlParsing,
            },
        },
{
    let link = match &item.link {
        Some(link) => link,
        None => {
            return Ok(None);
        },
    };
    let url = match PageUrl::parse(link.as_str()) {
        Ok(url) => url,
        Err(e) => {
            return Err(e);
        },
    };
    let title = match &item.title {
        Some(title) => title.clone(),
        None => "No title".to_string(),
    };
    let content = match &item.content {
        Some(content) => content.clone(),
        None => match &item.description {
            Some(description) => description.clone(),
            None => "no content".to_string(),
        },
    };
    Ok(Some(Page { url, title, content }))
}

/// The page that an item stands for, where it has a link that is a URL.
pub open spec fn item_page_view(item: FeedItemView) -> Option<PageView> {
    match item.link {
        Some(link) => match url_parse(link) {
            Some(url) => Some(
                PageView { url: url.text, title: item_title(item), content: item_content(item) },
            ),
            None => None,
        },
        None => None,
    }
}

/// The index after the items of a feed were indexed at the instant `now`,
/// one after the other, where all of that can be done. An item without a
/// link is passed over.
pub open spec fn indexed_items(
    index: IndexView,
    items: Seq<FeedItemView>,
    interval: Interval,
    now: Timestamp,
) -> Option<IndexView>
    decreases items.len(),
{
    if items.len() == 0 {
        Some(index)
    } else {
        match indexed_items(index, items.drop_last(), interval, now) {
            Some(before) => if items.last().link is None {
                Some(before)
            } else {
                match item_page_view(items.last()) {
                    Some(page) => indexed_at(before, page, interval, now),
                    None => None,
                }
            },
            None => None,
        }
    }
}

/// How many of the items have a link.
pub open spec fn linked_items(items: Seq<FeedItemView>) -> nat
    decreases items.len(),
{
    if items.len() == 0 {
        0
    } else {
        linked_items(items.drop_last()) + if items.last().link is Some {
            1nat
        } else {
            0nat
        }
    }
}

/// The link of the first item that has one.
pub open spec fn first_link(items: Seq<FeedItemView>) -> Option<Seq<char>>
    decreases items.len(),
{
    if items.len() == 0 {
        None
    } else if items.first().link is Some {
        items.first().link
    } else {
        first_link(items.drop_first())
    }
}

/// Whether the link of the first item that has one is no URL.
pub open spec fn refuses_first_link(items: Seq<FeedItemView>) -> bool {
    first_link(items) matches Some(link) && url_parse(link) is None
}

/// Among the first items of a feed there are no more with a link than in
/// the whole feed.
proof fn linked_items_grow(items: Seq<FeedItemView>, n: int)
    requires
        0 <= n <= items.len(),
    ensures
        linked_items(items.take(n)) <= linked_items(items),
    decreases items.len() - n,
{
    if n < items.len() {
        assert(items.take(n + 1).drop_last() == items.take(n));
        linked_items_grow(items, n + 1);
    } else {
        assert(items.take(n) == items);
    }
}

/// Once the first items of a feed cannot be indexed, neither can the whole
/// feed.
proof fn indexed_items_from(
    index: IndexView,
    items: Seq<FeedItemView>,
    interval: Interval,
    now: Timestamp,
    n: int,
)
    requires
        0 <= n <= items.len(),
        indexed_items(index, items.take(n), interval, now) is None,
    ensures
        indexed_items(index, items, interval, now) is None,
    decreases items.len() - n,
{
    if n < items.len() {
        assert(items.take(n + 1).drop_last() == items.take(n));
        indexed_items_from(index, items, interval, now, n + 1);
    } else {
        assert(items.take(n) == items);
    }
}

/// Indexes the items of a feed at the instant `now`, one after the other, and
/// says how many pages it handed to the index. An item without a link is
/// passed over. The first item that cannot be indexed ends the work with its
/// error; the items before it stay indexed.
///
/// Where a store fails, nothing is said of what the index then holds.
pub fn index_items_at(
    index: &mut Index,
    items: &Vec<FeedItem>,
    update_interval: Interval,
    now: Timestamp,
) -> (r: Result<usize, CeridwenError>)
    ensures
        match r {
            Ok(count) => indexed_items(old(index)@, item_views(items@), update_interval, now)
                == Some(final(index)@) && count == linked_items(item_views(items@)),
            Err(e) => e is SledError || ((e is UrlParsing || e is BadIndexRecord) && indexed_items(
                old(index)@,
                item_views(items@),
                update_interval,
                now,
            ) is None),
        },
        // A feed without an item that has a link asks nothing of the index.
        linked_items(item_views(items@)) == 0 ==> r is Ok,
        // The first item with a link is looked at before anything is asked
        // of the index.
        refuses_first_link(item_views(items@)) ==> (r matches Err(e) && e is UrlParsing),
{
    let ghost all = item_views(items@);
    let mut count: usize = 0;
    let mut i: usize = 0;
    assert(all.take(0) == Seq::<FeedItemView>::empty());
    assert(all.skip(0) == all);
    while i < items.len()
        invariant
            i <= items.len(),
            count <= i,
            all == item_views(items@),
            count == linked_items(all.take(i as int)),
            count == 0 ==> first_link(all) == first_link(all.skip(i as int)),
            count > 0 ==> !refuses_first_link(all),
            indexed_items(old(index)@, all.take(i as int), update_interval, now) == Some(index@),
        decreases items.len() - i,
    {
        proof {
            assert(all.take(i + 1).drop_last() == all.take(i as int));
            assert(all.take(i + 1).last() == items[i as int]@);
            assert(all.skip(i as int).first() == items[i as int]@);
            assert(all.skip(i as int).drop_first() == all.skip(i + 1));
            linked_items_grow(all, i + 1);
            if indexed_items(old(index)@, all.take(i + 1), update_interval, now) is None {
                indexed_items_from(old(index)@, all, update_interval, now, i + 1);
            }
        }
        match item_page(&items[i]) {
            Ok(Some(page)) => {
                match index.add_page_at(&page, update_interval, now) {
                    Ok(()) => {},
                    Err(e) => {
                        return Err(e);
                    },
                }
                count += 1;
            },
            Ok(None) => {},
            Err(e) => {
                return Err(e);
            },
        }
        i += 1;
    }
    assert(all.take(items.len() as int) == all);
    assert(all.skip(items.len() as int).len() == 0);
    Ok(count)
}

/// Indexes the items of a feed now: see `index_items_at`.
pub fn index_items(index: &mut Index, items: &Vec<FeedItem>, update_interval: Interval) -> (r:
    Result<usize, CeridwenError>)
    ensures
        match r {
            Ok(count) => count == linked_items(item_views(items@)) && exists|now: Timestamp|
                #[trigger] indexed_items(old(index)@, item_views(items@), update_interval, now)
                    == Some(final(index)@),
            Err(e) => e is SledError || e is UrlParsing || e is BadIndexRecord,
        },
        linked_items(item_views(items@)) == 0 ==> r is Ok,
        refuses_first_link(item_views(items@)) ==> (r matches Err(e) && e is UrlParsing),
{
    index_items_at(index, items, update_interval, Timestamp::now())
}

/// Where an RSS ingester reads its feed: at its base URL, which it has to
/// have.
pub fn feed_url(base_url: &Option<String>) -> (r: Result<PageUrl, CeridwenError>)
    ensures
        match base_url {
            None => r matches Err(e) && e is MissingBaseUrl,
            Some(text) => match r {
                Ok(url) => url_parse(text@) == Some(url@),
                Err(e) => url_parse(text@) is None && e is UrlParsing,
            },
        },
{
    match base_url {
        Some(text) => PageUrl::parse(text.as_str()),
        None => Err(CeridwenError::MissingBaseUrl),
    }
}

} // verus!
