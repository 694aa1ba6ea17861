//! The index store: a page store, a URL index and a word index, each a
//! `sled` database, and the operations that keep pages in them and find them
//! again.

use vstd::prelude::*;
use crate::clock::Interval;
use crate::clock::Timestamp;
use crate::data::can_be_kept;
use crate::data::Page;
use crate::data::PageUrl;
use crate::data::PageView;
use crate::data::Record;
use crate::data::record_for;
use crate::data::record_json;
use crate::data::record_of_json;
use crate::data::SearchResult;
use crate::error::CeridwenError;
use crate::keys::be8;
use crate::keys::be_value;
use crate::keys::bytes_of;
use crate::keys::id_bytes;
use crate::keys::id_of_bytes;
use crate::keys::posting_key;
use crate::keys::frames_of;
use crate::keys::framed;
use crate::keys::posting_key_bytes;
use crate::keys::posting_key_of_bytes;
use crate::keys::read_frames;
use crate::keys::WORD_KEY_SEPARATOR;
use crate::keys::posting_prefix;
use crate::keys::posting_prefix_bytes;
use crate::keys::text_bytes;
use crate::ranking::capped_sum;
use crate::ranking::is_ranking;
use crate::ranking::score_of;
use crate::ranking::Scores;
use crate::store::batch_insert;
use crate::store::batch_new;
use crate::store::batch_writes;
use crate::store::db_apply_batch;
use crate::store::db_contents;
use crate::store::db_generate_id;
use crate::store::applied;
use crate::store::batch_remove;
use crate::store::db_get;
use crate::store::db_insert;
use crate::store::db_remove;
use crate::store::db_next_id;
use crate::store::id_after;
use crate::store::db_scan_prefix;
use crate::store::holds_key;
use crate::store::is_prefix_scan;
use crate::store::open_db;
use crate::text_tools::count_words;
use crate::text_tools::filter;
use crate::text_tools::is_indexed_term;
use crate::text_tools::tally;
use crate::text_tools::tokenise;
use crate::text_tools::tokens_of;

verus! {

/// What an index holds.
pub struct IndexView {
    /// The word index: under the key of a term and a page id, how often the
    /// term occurs in the page, in eight bytes.
    pub words: Map<Seq<u8>, Seq<u8>>,
    /// The page store: under the eight bytes of a page id, the record of the
    /// page as JSON.
    pub pages: Map<Seq<u8>, Seq<u8>>,
    /// The URL index: under the bytes of a URL, the eight bytes of the id of
    /// its page.
    pub urls: Map<Seq<u8>, Seq<u8>>,
    /// The term lists: under the eight bytes of a page id, the terms under
    /// which the page is indexed, each after its length in eight bytes.
    pub terms: Map<Seq<u8>, Seq<u8>>,
    /// The id that the next new page gets.
    pub next_id: u64,
}

/// The index of pages and of the words in them.
pub struct Index {
    words: sled::Db,
    pages: sled::Db,
    urls: sled::Db,
    terms: sled::Db,
}

impl View for Index {
    type V = IndexView;

    closed spec fn view(&self) -> IndexView {
        IndexView {
            words: db_contents(self.words),
            pages: db_contents(self.pages),
            urls: db_contents(self.urls),
            terms: db_contents(self.terms),
            next_id: db_next_id(self.pages),
        }
    }
}

/// What the page store holds for a page id: nothing, a record, or bytes that
/// are no record.
pub open spec fn stored_record(index: IndexView, id: u64) -> Result<Option<Record>, ()> {
    if !index.pages.contains_key(be8(id)) {
        Ok(None)
    } else {
        match record_of_json(index.pages[be8(id)]) {
            Some(record) => Ok(Some(record)),
            None => Err(()),
        }
    }
}

/// The page that is indexed under a URL, with its id: nothing where the URL
/// is not indexed, and an error where it is but the URL index or the page
/// store does not hold what it should.
pub open spec fn indexed_page(index: IndexView, url: Seq<char>) -> Result<
    Option<(u64, Record)>,
    (),
> {
    let key = text_bytes(url);
    if !index.urls.contains_key(key) {
        Ok(None)
    } else if index.urls[key].len() != 8 {
        Err(())
    } else {
        let id = be_value(index.urls[key]) as u64;
        match stored_record(index, id) {
            Ok(Some(record)) => Ok(Some((id, record))),
            _ => Err(()),
        }
    }
}

/// The index after a new page was kept in it under the id that was next.
pub open spec fn with_page(index: IndexView, record: Record) -> IndexView {
    IndexView {
        pages: index.pages.insert(be8(index.next_id), record_json(record)->0),
        urls: index.urls.insert(text_bytes(record.url), be8(index.next_id)),
        next_id: id_after(index.next_id),
        ..index
    }
}

/// The entries of the word index for the terms of a page: each term's key
/// with its count in eight bytes.
pub open spec fn postings_of(counts: Seq<(Seq<char>, u64)>, id: u64) -> Map<Seq<u8>, Seq<u8>>
    decreases counts.len(),
{
    if counts.len() == 0 {
        Map::empty()
    } else {
        postings_of(counts.drop_last(), id).insert(
            posting_key(counts.last().0, id),
            be8(counts.last().1),
        )
    }
}

/// The terms of a page in bytes, in the order of their counts.
pub open spec fn term_parts(counts: Seq<(Seq<char>, u64)>) -> Seq<Seq<u8>> {
    counts.map_values(|count: (Seq<char>, u64)| text_bytes(count.0))
}

/// The list of a page's terms as it is kept: each term after its length in
/// eight bytes.
pub open spec fn term_list(counts: Seq<(Seq<char>, u64)>) -> Seq<u8> {
    framed(term_parts(counts))
}

/// The terms that the index lists for a page: none where it has no list for
/// the page, and nothing where what it has is no list.
pub open spec fn listed_terms(index: IndexView, id: u64) -> Option<Seq<Seq<u8>>> {
    if index.terms.contains_key(be8(id)) {
        frames_of(index.terms[be8(id)])
    } else {
        Some(Seq::empty())
    }
}

/// Whether `key` is the key of the word index for one of the listed terms
/// and the page `id`.
pub open spec fn is_listed_key(listed: Seq<Seq<u8>>, id: u64, key: Seq<u8>) -> bool {
    exists|i: int| 0 <= i < listed.len() && key == posting_key_of_bytes(#[trigger] listed[i], id)
}

/// The word index without the entries of the listed terms for the page `id`.
pub open spec fn without_listed(
    words: Map<Seq<u8>, Seq<u8>>,
    listed: Seq<Seq<u8>>,
    id: u64,
) -> Map<Seq<u8>, Seq<u8>> {
    Map::new(
        |key: Seq<u8>| words.contains_key(key) && !is_listed_key(listed, id, key),
        |key: Seq<u8>| words[key],
    )
}

/// The index after the counts of a page's terms were written to it: the
/// entries of the terms that were listed for the page are taken out, those of
/// its terms now are written, and its terms now are listed.
pub open spec fn with_words(index: IndexView, counts: Seq<(Seq<char>, u64)>, id: u64) -> IndexView {
    IndexView {
        words: without_listed(index.words, listed_terms(index, id)->0, id).union_prefer_right(
            postings_of(counts, id),
        ),
        terms: index.terms.insert(be8(id), term_list(counts)),
        ..index
    }
}

/// Whether `key` is a key of the word index that carries the page id `id`:
/// the key of some term, given in bytes, and of that page.
pub open spec fn carries(key: Seq<u8>, id: u64) -> bool {
    exists|term: Seq<u8>| key == #[trigger] posting_key_of_bytes(term, id)
}

/// The entries of the word index that carry the page id `id`.
pub open spec fn postings_with(words: Map<Seq<u8>, Seq<u8>>, id: u64) -> Map<Seq<u8>, Seq<u8>> {
    Map::new(|key: Seq<u8>| words.contains_key(key) && carries(key, id), |key: Seq<u8>| words[key])
}

/// The entries of the word index that do not carry the page id `id`.
pub open spec fn postings_without(words: Map<Seq<u8>, Seq<u8>>, id: u64) -> Map<Seq<u8>, Seq<u8>> {
    Map::new(
        |key: Seq<u8>| words.contains_key(key) && !carries(key, id),
        |key: Seq<u8>| words[key],
    )
}

/// Whether the index lists the terms of the page `id` in full: every entry
/// of the word index that carries the id is the entry of a listed term.
pub open spec fn lists_its_postings(index: IndexView, id: u64) -> bool {
    &&& listed_terms(index, id) is Some
    &&& forall|key: Seq<u8>| #[trigger]
        index.words.contains_key(key) && carries(key, id) ==> is_listed_key(
            listed_terms(index, id)->0,
            id,
            key,
        )
}

/// Every entry for the terms of a page carries the id of the page, and is
/// the entry of one of the terms, with its count.
pub proof fn postings_are_of_terms(counts: Seq<(Seq<char>, u64)>, id: u64, key: Seq<u8>)
    requires
        postings_of(counts, id).contains_key(key),
    ensures
        carries(key, id),
        is_listed_key(term_parts(counts), id, key),
        exists|j: int|
            0 <= j < counts.len() && key == posting_key((#[trigger] counts[j]).0, id)
                && postings_of(counts, id)[key] == be8(counts[j].1),
    decreases counts.len(),
{
    if counts.len() > 0 {
        let last = counts.len() - 1;
        if key == posting_key(counts[last].0, id) {
            assert(postings_of(counts, id)[key] == be8(counts[last].1));
            assert(key == posting_key_of_bytes(text_bytes(counts[last].0), id));
            assert(term_parts(counts)[last] == text_bytes(counts[last].0));
        } else {
            postings_are_of_terms(counts.drop_last(), id, key);
            let j = choose|j: int|
                0 <= j < counts.drop_last().len() && key == posting_key(
                    (#[trigger] counts.drop_last()[j]).0,
                    id,
                ) && postings_of(counts.drop_last(), id)[key] == be8(counts.drop_last()[j].1);
            assert(counts[j] == counts.drop_last()[j]);
            assert(key == posting_key_of_bytes(text_bytes(counts[j].0), id));
            assert(term_parts(counts)[j] == text_bytes(counts[j].0));
        }
    }
}

/// Writing the terms of a page replaces its entries: where the index lists
/// the terms of the page in full, the entries of the word index that carry
/// the id of the page are afterwards exactly those of its terms now, and the
/// entries that carry other ids are as they were.
pub proof fn written_words_replace_the_old(index: IndexView, counts: Seq<(Seq<char>, u64)>, id: u64)
    requires
        lists_its_postings(index, id),
    ensures
        postings_with(with_words(index, counts, id).words, id) == postings_of(counts, id),
        postings_without(with_words(index, counts, id).words, id) == postings_without(
            index.words,
            id,
        ),
{
    let listed = listed_terms(index, id)->0;
    let after = with_words(index, counts, id).words;
    let written = postings_of(counts, id);
    assert forall|key: Seq<u8>| is_listed_key(listed, id, key) implies carries(key, id) by {
        let i = choose|i: int|
            0 <= i < listed.len() && key == posting_key_of_bytes(#[trigger] listed[i], id);
        assert(key == posting_key_of_bytes(listed[i], id));
    }
    assert forall|key: Seq<u8>| written.contains_key(key) implies carries(key, id) by {
        postings_are_of_terms(counts, id, key);
    }
    assert(postings_with(after, id) =~= written);
    assert(postings_without(after, id) =~= postings_without(index.words, id));
}

/// The terms under which a page is indexed: the tokens of its title and then
/// of its text, without the empty ones and the stop words.
pub open spec fn page_terms(page: PageView) -> Seq<Seq<char>> {
    (tokens_of(page.title) + tokens_of(page.content)).filter(
        |w: Seq<char>| is_indexed_term(w),
    )
}

/// Whether a record was written so lately that its page is not indexed
/// again: less than `interval` before `now`.
pub open spec fn is_fresh(record: Record, interval: Interval, now: Timestamp) -> bool {
    record.last_index.unix_nanos + interval.nanos > now.unix_nanos
}

/// The index after the page with the id `id` was indexed again: the entries
/// of the terms that it had are taken out of the word index, those of the
/// terms that it has now are written, and its record is replaced.
pub open spec fn reindexed(index: IndexView, id: u64, page: PageView, now: Timestamp) -> IndexView {
    IndexView {
        pages: index.pages.insert(be8(id), record_json(record_for(page, now))->0),
        ..with_words(index, tally(page_terms(page)), id)
    }
}

/// The index after a page that it did not hold was indexed.
pub open spec fn with_new_page(index: IndexView, page: PageView, now: Timestamp) -> IndexView {
    with_words(
        with_page(index, record_for(page, now)),
        tally(page_terms(page)),
        index.next_id,
    )
}

/// The index after `page` was indexed at the instant `now`, where that can
/// be done.
///
/// A page that is indexed already, and was so less than `interval` before
/// `now`, is left alone. One that was indexed longer ago gets the counts of
/// its terms written again and a new record. One that is not indexed yet is
/// kept under a new id. Where the index lists terms for the page, their
/// entries are taken out of the word index before the new ones are written.
/// Nothing can be done where the index does not hold what it should for the
/// URL of the page or for its terms, or where the record of the page cannot
/// be kept.
pub open spec fn indexed_at(index: IndexView, page: PageView, interval: Interval, now: Timestamp) -> Option<
    IndexView,
> {
    match indexed_page(index, page.url) {
        Ok(Some((id, record))) => if is_fresh(record, interval, now) {
            Some(index)
        } else if can_be_kept(record_for(page, now)) && listed_terms(index, id) is Some {
            Some(reindexed(index, id, page, now))
        } else {
            None
        },
        Ok(None) => if can_be_kept(record_for(page, now)) && listed_terms(index, index.next_id)
            is Some {
            Some(with_new_page(index, page, now))
        } else {
            None
        },
        Err(_) => None,
    }
}

impl Index {
    /// An index that keeps its word index, its page store, its URL index and
    /// its term lists in the four given databases. The index has to be the
    /// only one that writes to them: what is said of it holds as long as no
    /// other handle changes what they hold.
    pub fn new(words: sled::Db, pages: sled::Db, urls: sled::Db, terms: sled::Db) -> (index: Index)
        ensures
            index@.words == db_contents(words),
            index@.pages == db_contents(pages),
            index@.urls == db_contents(urls),
            index@.terms == db_contents(terms),
            index@.next_id == db_next_id(pages),
    {
        Index { words, pages, urls, terms }
    }

    /// Opens the index under `root_dir`, making the stores that are not there
    /// yet: `word_index`, `page_index`, `page_url_index` and
    /// `page_terms_index`.
    pub fn load(root_dir: &str) -> (r: Result<Index, CeridwenError>)
        ensures
            match r {
                Ok(index) => index.is_laid_out_under(root_dir@),
                Err(e) => e is SledError,
            },
    {
        let words = match open_db(root_dir, "word_index") {
            Ok(db) => db,
            Err(e) => {
                return Err(CeridwenError::SledError(e));
            },
        };
        let pages = match open_db(root_dir, "page_index") {
            Ok(db) => db,
            Err(e) => {
                return Err(CeridwenError::SledError(e));
            },
        };
        let urls = match open_db(root_dir, "page_url_index") {
            Ok(db) => db,
            Err(e) => {
                return Err(CeridwenError::SledError(e));
            },
        };
        let terms = match open_db(root_dir, "page_terms_index") {
            Ok(db) => db,
            Err(e) => {
                return Err(CeridwenError::SledError(e));
            },
        };
        Ok(Index { words, pages, urls, terms })
    }

    /// Where the word index was opened: the directory that it lies under and
    /// its name there.
    pub closed spec fn word_store(&self) -> (Seq<char>, Seq<char>) {
        crate::store::db_home(self.words)
    }

    /// Where the page store was opened.
    pub closed spec fn page_store(&self) -> (Seq<char>, Seq<char>) {
        crate::store::db_home(self.pages)
    }

    /// Where the URL index was opened.
    pub closed spec fn url_store(&self) -> (Seq<char>, Seq<char>) {
        crate::store::db_home(self.urls)
    }

    /// Where the term lists were opened.
    pub closed spec fn term_store(&self) -> (Seq<char>, Seq<char>) {
        crate::store::db_home(self.terms)
    }

    /// Whether the four stores of the index are those under `root`: the
    /// word index in `word_index`, the page store in `page_index`, the URL
    /// index in `page_url_index`, and the term lists in `page_terms_index`.
    pub open spec fn is_laid_out_under(&self, root: Seq<char>) -> bool {
        &&& self.word_store() == (root, "word_index"@)
        &&& self.page_store() == (root, "page_index"@)
        &&& self.url_store() == (root, "page_url_index"@)
        &&& self.term_store() == (root, "page_terms_index"@)
    }

    /// The record that the page store holds for a page id.
    ///
    /// Bytes in the page store that are no record are a bad index record.
    pub fn lookup_id(&self, id: u64) -> (r: Result<Option<SearchResult>, CeridwenError>)
        ensures
            match r {
                Ok(found) => stored_record(self@, id) == Ok::<_, ()>(found.deep_view()),
                Err(CeridwenError::BadIndexRecord) => stored_record(self@, id) is Err,
                Err(e) => e is SledError,
            },
    {
        let key = id_bytes(id);
        match db_get(&self.pages, key.as_slice()) {
            Ok(Some(bytes)) => match SearchResult::from_bytes(bytes.as_slice()) {
                Some(record) => Ok(Some(record)),
                None => Err(CeridwenError::BadIndexRecord),
            },
            Ok(None) => Ok(None),
            Err(e) => Err(CeridwenError::SledError(e)),
        }
    }

    /// The id and the record under which a page is indexed, by its URL.
    ///
    /// A URL that is indexed without a record in the page store, or with
    /// bytes there or in the URL index that are not what they should be, is
    /// a bad index record.
    pub fn look_up_page(&self, page: &Page) -> (r: Result<
        Option<(u64, SearchResult)>,
        CeridwenError,
    >)
        ensures
            match r {
                Ok(found) => indexed_page(self@, page.url@.text) == Ok::<_, ()>(
                    found.deep_view(),
                ),
                Err(CeridwenError::BadIndexRecord) => indexed_page(self@, page.url@.text) is Err,
                Err(e) => e is SledError,
            },
    {
        self.look_up_url(&page.url)
    }

    /// The page that is indexed under a URL, with its id: see `look_up_page`.
    pub fn look_up_url(&self, url: &PageUrl) -> (r: Result<
        Option<(u64, SearchResult)>,
        CeridwenError,
    >)
        ensures
            match r {
                Ok(found) => indexed_page(self@, url@.text) == Ok::<_, ()>(found.deep_view()),
                Err(CeridwenError::BadIndexRecord) => indexed_page(self@, url@.text) is Err,
                Err(e) => e is SledError,
            },
    {
        let key = bytes_of(url.as_str());
        let id_bytes = match db_get(&self.urls, key.as_slice()) {
            Ok(Some(id_bytes)) => id_bytes,
            Ok(None) => {
                return Ok(None);
            },
            Err(e) => {
                return Err(CeridwenError::SledError(e));
            },
        };
        let id = match id_of_bytes(id_bytes.as_slice()) {
            Some(id) => id,
            None => {
                return Err(CeridwenError::BadIndexRecord);
            },
        };
        proof {
            crate::keys::pow256_of_eight();
            crate::keys::be_value_of_bytes(id as nat, 8);
            crate::keys::be_bytes_len(id as nat, 8);
            assert(be_value(self@.urls[text_bytes(url@.text)]) == id);
        }
        match self.lookup_id(id) {
            Ok(Some(record)) => {
                let found = Some((id, record));
                assert(found.deep_view() == Some((id, record.deep_view())));
                Ok(found)
            },
            Ok(None) => Err(CeridwenError::BadIndexRecord),
            Err(e) => Err(e),
        }
    }

    /// When the page with the URL of `page` was last indexed: never where
    /// the URL index or the page store does not have it.
    pub fn last_index_time(&self, page: &Page) -> (r: Result<Option<Timestamp>, CeridwenError>)
        ensures
            match r {
                Ok(found) => {
                    let key = text_bytes(page.url@.text);
                    if !self@.urls.contains_key(key) {
                        found is None
                    } else {
                        &&& self@.urls[key].len() == 8
                        &&& match stored_record(self@, be_value(self@.urls[key]) as u64) {
                            Ok(Some(record)) => found == Some(record.last_index),
                            Ok(None) => found is None,
                            Err(_) => false,
                        }
                    }
                },
                Err(CeridwenError::BadIndexRecord) => indexed_page(self@, page.url@.text) is Err,
                Err(e) => e is SledError,
            },
    {
        let key = bytes_of(page.url.as_str());
        let id_bytes = match db_get(&self.urls, key.as_slice()) {
            Ok(Some(id_bytes)) => id_bytes,
            Ok(None) => {
                return Ok(None);
            },
            Err(e) => {
                return Err(CeridwenError::SledError(e));
            },
        };
        let id = match id_of_bytes(id_bytes.as_slice()) {
            Some(id) => id,
            None => {
                return Err(CeridwenError::BadIndexRecord);
            },
        };
        proof {
            crate::keys::pow256_of_eight();
            crate::keys::be_value_of_bytes(id as nat, 8);
            crate::keys::be_bytes_len(id as nat, 8);
            assert(be_value(self@.urls[text_bytes(page.url@.text)]) == id);
        }
        match self.lookup_id(id) {
            Ok(Some(record)) => Ok(Some(record.last_index)),
            Ok(None) => Ok(None),
            Err(e) => Err(e),
        }
    }

    /// Takes the next id. Whether or not the id is handed out, it is used up,
    /// and every store holds what it held.
    fn take_id(&mut self) -> (r: Result<u64, CeridwenError>)
        ensures
            match r {
                Ok(id) => id == old(self)@.next_id,
                Err(e) => e is SledError,
            },
            final(self)@ == (IndexView { next_id: id_after(old(self)@.next_id), ..old(self)@ }),
    {
        match db_generate_id(&mut self.pages) {
            Ok(id) => Ok(id),
            Err(e) => Err(CeridwenError::SledError(e)),
        }
    }

    /// Keeps a new page: gives it the next id, writes its record to the page
    /// store and its URL to the URL index.
    ///
    /// A record that cannot be kept is a bad index record, and leaves the
    /// index as it was. Where a store fails, the id is used up, the word
    /// index and the term lists are as they were, and either the URL index is
    /// as it was or the record of the page stands in the page store.
    pub fn store_page_at(&mut self, page: &Page, now: Timestamp) -> (r: Result<
        (u64, SearchResult),
        CeridwenError,
    >)
        ensures
            match r {
                Ok((id, record)) => {
                    &&& id == old(self)@.next_id
                    &&& record.deep_view() == record_for(page@, now)
                    &&& can_be_kept(record_for(page@, now))
                    &&& final(self)@ == with_page(old(self)@, record_for(page@, now))
                },
                Err(CeridwenError::BadIndexRecord) => {
                    &&& !can_be_kept(record_for(page@, now))
                    &&& final(self)@ == old(self)@
                },
                Err(e) => {
                    &&& e is SledError
                    &&& final(self)@.words == old(self)@.words
                    &&& final(self)@.terms == old(self)@.terms
                    &&& final(self)@.next_id == id_after(old(self)@.next_id)
                    &&& final(self)@.urls == old(self)@.urls || final(self)@.pages == with_page(
                        old(self)@,
                        record_for(page@, now),
                    ).pages
                },
            },
            takes_at_most_one_id(old(self)@, final(self)@),
    {
        let ghost before = self@;
        let record = SearchResult::from_page(page, now);
        let bytes = match record.to_bytes() {
            Some(bytes) => bytes,
            None => {
                return Err(CeridwenError::BadIndexRecord);
            },
        };
        let id = match self.take_id() {
            Ok(id) => id,
            Err(e) => {
                return Err(e);
            },
        };
        let key = id_bytes(id);
        match db_insert(&mut self.pages, key.as_slice(), bytes.as_slice()) {
            Ok(()) => {},
            Err(e) => {
                return Err(CeridwenError::SledError(e));
            },
        }
        let url_key = bytes_of(page.url.as_str());
        match db_insert(&mut self.urls, url_key.as_slice(), key.as_slice()) {
            Ok(()) => {},
            Err(e) => {
                return Err(CeridwenError::SledError(e));
            },
        }
        proof {
            let after = with_page(before, record_for(page@, now));
            assert(self@.pages == after.pages);
            assert(self@.urls == after.urls);
            assert(self@.words == after.words);
            assert(self@.terms == after.terms);
            assert(self@.next_id == after.next_id);
        }
        Ok((id, record))
    }

    /// Keeps a new page, as indexed now: see `store_page_at`.
    pub fn store_page(&mut self, page: &Page) -> (r: Result<(u64, SearchResult), CeridwenError>)
        ensures
            match r {
                Ok((id, record)) => exists|now: Timestamp|
                    {
                        &&& id == old(self)@.next_id
                        &&& record.deep_view() == #[trigger] record_for(page@, now)
                        &&& can_be_kept(record_for(page@, now))
                        &&& final(self)@ == with_page(old(self)@, record_for(page@, now))
                    },
                Err(CeridwenError::BadIndexRecord) => {
                    &&& exists|now: Timestamp| !can_be_kept(#[trigger] record_for(page@, now))
                    &&& final(self)@ == old(self)@
                },
                Err(e) => {
                    &&& e is SledError
                    &&& final(self)@.words == old(self)@.words
                    &&& final(self)@.terms == old(self)@.terms
                    &&& final(self)@.next_id == id_after(old(self)@.next_id)
                },
            },
            takes_at_most_one_id(old(self)@, final(self)@),
    {
        self.store_page_at(page, Timestamp::now())
    }

    /// Writes the counts of the terms of a page to the word index, in one
    /// batch with the removal of the entries of the terms that were listed
    /// for the page, and then lists the terms.
    ///
    /// What is kept as the list of the page's terms and is no list is a bad
    /// index record. Where a store fails, nothing is said of the word index
    /// and the term lists; the page store and the URL index are as they were.
    pub fn store_words(&mut self, page_id: u64, words: &Vec<(String, u64)>) -> (r: Result<
        (),
        CeridwenError,
    >)
        ensures
            match r {
                Ok(()) => listed_terms(old(self)@, page_id) is Some && final(self)@ == with_words(
                    old(self)@,
                    words.deep_view(),
                    page_id,
                ),
                Err(CeridwenError::BadIndexRecord) => listed_terms(old(self)@, page_id) is None
                    && final(self)@ == old(self)@,
                Err(e) => {
                    &&& e is SledError
                    &&& final(self)@.pages == old(self)@.pages
                    &&& final(self)@.urls == old(self)@.urls
                    &&& final(self)@.next_id == old(self)@.next_id
                },
            },
            takes_at_most_one_id(old(self)@, final(self)@),
    {
        let ghost before = self@;
        let ghost counts = words.deep_view();
        let id_key = id_bytes(page_id);
        let listed: Vec<Vec<u8>> = match db_get(&self.terms, id_key.as_slice()) {
            Ok(Some(bytes)) => match read_frames(&bytes) {
                Some(parts) => parts,
                None => {
                    return Err(CeridwenError::BadIndexRecord);
                },
            },
            Ok(None) => {
                let none: Vec<Vec<u8>> = Vec::new();
                assert(none.deep_view() == Seq::<Seq<u8>>::empty());
                none
            },
            Err(e) => {
                return Err(CeridwenError::SledError(e));
            },
        };
        let ghost stale = listed.deep_view();
        assert(listed_terms(before, page_id) == Some(stale));
        let mut batch = batch_new();
        let mut k: usize = 0;
        assert(batch_writes(batch) == removals(stale.take(0), page_id)) by {
            assert forall|key: Seq<u8>| !is_listed_key(stale.take(0), page_id, key) by {}
        }
        while k < listed.len()
            invariant
                k <= listed.len(),
                stale == listed.deep_view(),
                batch_writes(batch) == removals(stale.take(k as int), page_id),
            decreases listed.len() - k,
        {
            let key = posting_key_for(&listed[k], page_id);
            let ghost written = batch_writes(batch);
            batch_remove(&mut batch, key.as_slice());
            proof {
                let more = stale.take(k + 1);
                let fewer = stale.take(k as int);
                assert(more[k as int] == stale[k as int]);
                assert(stale[k as int] == listed[k as int]@);
                assert(key@ == posting_key_of_bytes(more[k as int], page_id));
                assert(is_listed_key(more, page_id, key@));
                assert forall|other: Seq<u8>|
                    is_listed_key(more, page_id, other) <==> (is_listed_key(fewer, page_id, other)
                        || other == key@) by {
                    if is_listed_key(fewer, page_id, other) {
                        let i = choose|i: int|
                            0 <= i < fewer.len() && other == posting_key_of_bytes(
                                #[trigger] fewer[i],
                                page_id,
                            );
                        assert(more[i] == fewer[i]);
                    }
                    if is_listed_key(more, page_id, other) {
                        let i = choose|i: int|
                            0 <= i < more.len() && other == posting_key_of_bytes(
                                #[trigger] more[i],
                                page_id,
                            );
                        if i < k {
                            assert(fewer[i] == more[i]);
                        }
                    }
                }
                assert(written.insert(key@, None) == removals(more, page_id));
            }
            k += 1;
        }
        assert(stale.take(listed.len() as int) == stale);
        let mut i: usize = 0;
        assert(overlaid(removals(stale, page_id), postings_of(counts.take(0), page_id))
            == removals(stale, page_id));
        while i < words.len()
            invariant
                i <= words.len(),
                counts == words.deep_view(),
                batch_writes(batch) == overlaid(
                    removals(stale, page_id),
                    postings_of(counts.take(i as int), page_id),
                ),
            decreases words.len() - i,
        {
            proof {
                assert(counts.take(i + 1).drop_last() == counts.take(i as int));
                assert(counts.take(i + 1).last() == counts[i as int]);
            }
            let key = posting_key_bytes(words[i].0.as_str(), page_id);
            let value = id_bytes(words[i].1);
            let ghost written = batch_writes(batch);
            batch_insert(&mut batch, key.as_slice(), value.as_slice());
            assert(written.insert(key@, Some(value@)) == overlaid(
                removals(stale, page_id),
                postings_of(counts.take(i + 1), page_id),
            ));
            i += 1;
        }
        assert(counts.take(words.len() as int) == counts);
        let list = term_list_bytes(words);
        match db_apply_batch(&mut self.words, batch) {
            Ok(()) => {},
            Err(e) => {
                return Err(CeridwenError::SledError(e));
            },
        }
        match db_insert(&mut self.terms, id_key.as_slice(), list.as_slice()) {
            Ok(()) => {},
            Err(e) => {
                return Err(CeridwenError::SledError(e));
            },
        }
        proof {
            let after = with_words(before, counts, page_id);
            assert(self@.words == after.words);
            assert(self@.terms == after.terms);
        }
        Ok(())
    }
}

/// The writes that remove the entries of the listed terms for a page.
spec fn removals(listed: Seq<Seq<u8>>, id: u64) -> Map<Seq<u8>, Option<Seq<u8>>> {
    Map::new(|key: Seq<u8>| is_listed_key(listed, id, key), |key: Seq<u8>| None)
}

/// Writes, and after them the writes that set each key of `sets` to its
/// value.
spec fn overlaid(writes: Map<Seq<u8>, Option<Seq<u8>>>, sets: Map<Seq<u8>, Seq<u8>>) -> Map<
    Seq<u8>,
    Option<Seq<u8>>,
> {
    Map::new(
        |key: Seq<u8>| writes.contains_key(key) || sets.contains_key(key),
        |key: Seq<u8>|
            if sets.contains_key(key) {
                Some(sets[key])
            } else {
                writes[key]
            },
    )
}

/// The key of the word index for a term that is given in bytes, and a page.
fn posting_key_for(term: &Vec<u8>, id: u64) -> (key: Vec<u8>)
    ensures
        key@ == posting_key_of_bytes(term@, id),
{
    let mut key: Vec<u8> = Vec::new();
    let mut i: usize = 0;
    while i < term.len()
        invariant
            i <= term.len(),
            key@ == term@.take(i as int),
        decreases term.len() - i,
    {
        key.push(term[i]);
        i += 1;
    }
    assert(term@.take(term.len() as int) == term@);
    key.push(WORD_KEY_SEPARATOR);
    let mut tail = id_bytes(id);
    key.append(&mut tail);
    key
}

/// The list of a page's terms as it is kept.
fn term_list_bytes(words: &Vec<(String, u64)>) -> (list: Vec<u8>)
    ensures
        list@ == term_list(words.deep_view()),
{
    let ghost parts = term_parts(words.deep_view());
    let mut list: Vec<u8> = Vec::new();
    let mut i: usize = 0;
    assert(parts.skip(0) == parts);
    assert(list@ + framed(parts) == framed(parts));
    while i < words.len()
        invariant
            i <= words.len(),
            parts == term_parts(words.deep_view()),
            framed(parts) == list@ + framed(parts.skip(i as int)),
        decreases words.len() - i,
    {
        let ghost left = parts.skip(i as int);
        let ghost before = list@;
        let term = bytes_of(words[i].0.as_str());
        proof {
            assert(left.first() == term@);
            assert(left.drop_first() == parts.skip(i + 1));
        }
        let mut length = id_bytes(term.len() as u64);
        let mut copy = term;
        list.append(&mut length);
        list.append(&mut copy);
        assert(list@ + framed(parts.skip(i + 1)) == before + (be8(left.first().len() as u64)
            + left.first() + framed(parts.skip(i + 1))));
        i += 1;
    }
    assert(parts.skip(words.len() as int).len() == 0);
    assert(list@ + Seq::<u8>::empty() == list@);
    list
}

/// The index without the page that it holds under `id` for `url`: without
/// the entries of the terms that it lists for the page, the list, the URL
/// and the record.
pub open spec fn without_page(index: IndexView, id: u64, url: Seq<char>) -> IndexView {
    IndexView {
        words: without_listed(index.words, listed_terms(index, id)->0, id),
        terms: index.terms.remove(be8(id)),
        urls: index.urls.remove(text_bytes(url)),
        pages: index.pages.remove(be8(id)),
        next_id: index.next_id,
    }
}

/// The index after the page of a URL was taken out of it, where that can
/// be done: an index that does not have the URL stays as it is, and nothing
/// can be done where the index does not hold what it should for the URL or
/// for the terms of its page.
pub open spec fn deleted(index: IndexView, url: Seq<char>) -> Option<IndexView> {
    match indexed_page(index, url) {
        Ok(Some((id, _))) => if listed_terms(index, id) is Some {
            Some(without_page(index, id, url))
        } else {
            None
        },
        Ok(None) => Some(index),
        Err(_) => None,
    }
}

/// Whether a call took at most one id, whatever it returned: the next id is
/// as it was, or the one after it.
pub open spec fn takes_at_most_one_id(before: IndexView, after: IndexView) -> bool {
    after.next_id == before.next_id || after.next_id == id_after(before.next_id)
}

/// Whether indexing a page leaves the index alone: the page was indexed less
/// than `interval` before `now`, or the index does not hold what it should
/// for the URL of the page.
pub open spec fn leaves_alone(index: IndexView, page: PageView, interval: Interval, now: Timestamp) -> bool {
    match indexed_page(index, page.url) {
        Ok(Some((_, record))) => is_fresh(record, interval, now),
        Ok(None) => false,
        Err(_) => true,
    }
}

/// Whether `after` has the entries of a page replaced, where the page was
/// indexed again and the index listed its terms in full: the entries of the
/// word index that carry the id of the page are exactly those of the terms
/// that the page has now, and the entries that carry other ids are as they
/// were.
pub open spec fn replaces_postings(
    index: IndexView,
    page: PageView,
    interval: Interval,
    now: Timestamp,
    after: IndexView,
) -> bool {
    match indexed_page(index, page.url) {
        Ok(Some((id, record))) => !is_fresh(record, interval, now) && lists_its_postings(index, id)
            ==> {
            &&& postings_with(after.words, id) == postings_of(tally(page_terms(page)), id)
            &&& postings_without(after.words, id) == postings_without(index.words, id)
        },
        _ => true,
    }
}

impl Index {
    /// The counts of the terms of a page.
    fn term_counts(page: &Page) -> (counts: Vec<(String, u64)>)
        ensures
            counts.deep_view() == tally(page_terms(page@)),
    {
        let mut words = tokenise(page.title.as_str());
        let mut more = tokenise(page.content.as_str());
        let ghost first = words.deep_view();
        let ghost second = more.deep_view();
        words.append(&mut more);
        assert(words.deep_view() == first + second);
        count_words(filter(words))
    }

    /// Indexes a page at the instant `now`: see `indexed_at`.
    ///
    /// Where a store fails, nothing is said of what was being written then;
    /// the id that is next never goes back, and the URL index is changed for
    /// a new page only.
    pub fn add_page_at(&mut self, page: &Page, min_update_interval: Interval, now: Timestamp) -> (r:
        Result<(), CeridwenError>)
        ensures
            match r {
                Ok(()) => indexed_at(old(self)@, page@, min_update_interval, now) == Some(
                    final(self)@,
                ),
                Err(CeridwenError::BadIndexRecord) => indexed_at(
                    old(self)@,
                    page@,
                    min_update_interval,
                    now,
                ) is None,
                Err(e) => e is SledError,
            },
            // A page that need not be indexed, and one for which the index
            // does not hold what it should, leave the index as it was.
            leaves_alone(old(self)@, page@, min_update_interval, now) ==> final(self)@ == old(
                self,
            )@,
            // A page that is indexed again has its entries replaced.
            r is Ok ==> replaces_postings(old(self)@, page@, min_update_interval, now, final(self)@),
            // The id that is next never goes back.
            takes_at_most_one_id(old(self)@, final(self)@),
            final(self)@.urls == old(self)@.urls || indexed_page(old(self)@, page@.url) matches Ok(
                None,
            ),
    {
        let ghost before = self@;
        proof {
            match indexed_page(before, page@.url) {
                Ok(Some((id, record))) => {
                    if !is_fresh(record, min_update_interval, now) && lists_its_postings(before, id) {
                        written_words_replace_the_old(before, tally(page_terms(page@)), id);
                    }
                },
                _ => {},
            }
        }
        let existing = match self.look_up_page(page) {
            Ok(existing) => existing,
            Err(e) => {
                return Err(e);
            },
        };
        match existing {
            Some((id, record)) => {
                if record.last_index.plus_is_after(min_update_interval, now) {
                    return Ok(());
                }
                let counts = Index::term_counts(page);
                let fresh = SearchResult::from_page(page, now);
                let bytes = match fresh.to_bytes() {
                    Some(bytes) => bytes,
                    None => {
                        return Err(CeridwenError::BadIndexRecord);
                    },
                };
                match self.store_words(id, &counts) {
                    Ok(()) => {},
                    Err(e) => {
                        return Err(e);
                    },
                }
                let key = id_bytes(id);
                match db_insert(&mut self.pages, key.as_slice(), bytes.as_slice()) {
                    Ok(()) => {},
                    Err(e) => {
                        return Err(CeridwenError::SledError(e));
                    },
                }
                proof {
                    let after = reindexed(before, id, page@, now);
                    assert(self@.pages == after.pages);
                    assert(self@.words == after.words);
                }
                Ok(())
            },
            None => {
                let (id, _record) = match self.store_page_at(page, now) {
                    Ok(stored) => stored,
                    Err(e) => {
                        return Err(e);
                    },
                };
                let counts = Index::term_counts(page);
                self.store_words(id, &counts)
            },
        }
    }

    /// Takes the page of a URL out of the index: the entries of its terms
    /// leave the word index, and its list of terms, its URL and its record
    /// are removed, in that order. A URL that is not indexed leaves the
    /// index as it was.
    ///
    /// Where the index does not hold what it should for the URL or for the
    /// terms of its page, that is a bad index record and nothing is changed.
    /// Where a store fails, nothing is said of what is left of the page; the
    /// id that is next stays.
    pub fn delete_page(&mut self, url: &PageUrl) -> (r: Result<(), CeridwenError>)
        ensures
            match r {
                Ok(()) => deleted(old(self)@, url@.text) == Some(final(self)@),
                Err(CeridwenError::BadIndexRecord) => deleted(old(self)@, url@.text) is None
                    && final(self)@ == old(self)@,
                Err(e) => e is SledError,
            },
            final(self)@.next_id == old(self)@.next_id,
    {
        let ghost before = self@;
        let id = match self.look_up_url(url) {
            Ok(Some((id, _record))) => id,
            Ok(None) => {
                return Ok(());
            },
            Err(e) => {
                return Err(e);
            },
        };
        let none: Vec<(String, u64)> = Vec::new();
        assert(none.deep_view() == Seq::<(Seq<char>, u64)>::empty());
        match self.store_words(id, &none) {
            Ok(()) => {},
            Err(e) => {
                return Err(e);
            },
        }
        let key = id_bytes(id);
        match db_remove(&mut self.terms, key.as_slice()) {
            Ok(()) => {},
            Err(e) => {
                return Err(CeridwenError::SledError(e));
            },
        }
        let url_key = bytes_of(url.as_str());
        match db_remove(&mut self.urls, url_key.as_slice()) {
            Ok(()) => {},
            Err(e) => {
                return Err(CeridwenError::SledError(e));
            },
        }
        match db_remove(&mut self.pages, key.as_slice()) {
            Ok(()) => {},
            Err(e) => {
                return Err(CeridwenError::SledError(e));
            },
        }
        proof {
            let after = without_page(before, id, url@.text);
            let emptied = with_words(before, Seq::empty(), id);
            assert(emptied.words == after.words);
            assert(self@.words == after.words);
            assert(self@.terms == after.terms);
            assert(self@.urls == after.urls);
            assert(self@.pages == after.pages);
        }
        Ok(())
    }

    /// Indexes a page now: see `add_page_at`.
    pub fn add_page(&mut self, page: &Page, min_update_interval: Interval) -> (r: Result<
        (),
        CeridwenError,
    >)
        ensures
            exists|now: Timestamp| #[trigger]
                is_outcome_of_indexing(
                    old(self)@,
                    page@,
                    min_update_interval,
                    now,
                    r,
                    final(self)@,
                ),
    {
        let now = Timestamp::now();
        let r = self.add_page_at(page, min_update_interval, now);
        assert(is_outcome_of_indexing(old(self)@, page@, min_update_interval, now, r, self@));
        r
    }
}

/// Whether indexing a page at the instant `now` can end with the result `r`
/// and the index `after`.
pub open spec fn is_outcome_of_indexing(
    index: IndexView,
    page: PageView,
    interval: Interval,
    now: Timestamp,
    r: Result<(), CeridwenError>,
    after: IndexView,
) -> bool {
    &&& match r {
        Ok(()) => indexed_at(index, page, interval, now) == Some(after),
        Err(CeridwenError::BadIndexRecord) => indexed_at(index, page, interval, now) is None,
        Err(e) => e is SledError,
    }
    &&& leaves_alone(index, page, interval, now) ==> after == index
    &&& r is Ok ==> replaces_postings(index, page, interval, now, after)
    &&& takes_at_most_one_id(index, after)
}

/// Whether the word index holds, for `term`, an entry that is not made of a
/// key with a page id of eight bytes and a count of eight bytes.
pub open spec fn has_bad_posting(words: Map<Seq<u8>, Seq<u8>>, term: Seq<char>) -> bool {
    exists|key: Seq<u8>| is_bad_posting(words, term, key)
}

/// Whether `key` is a key of the word index for `term` whose entry is not
/// made as it should be.
pub open spec fn is_bad_posting(words: Map<Seq<u8>, Seq<u8>>, term: Seq<char>, key: Seq<u8>) -> bool {
    &&& words.contains_key(key)
    &&& posting_prefix(term).is_prefix_of(key)
    &&& !(key.len() == posting_prefix(term).len() + 8 && words[key].len() == 8)
}

/// Whether the word index holds a bad entry for one of `terms`.
pub open spec fn has_bad_postings(words: Map<Seq<u8>, Seq<u8>>, terms: Seq<Seq<char>>) -> bool {
    exists|i: int| 0 <= i < terms.len() && has_bad_posting(words, #[trigger] terms[i])
}

/// The score that each page has for one term: how often the term occurs in
/// it, for the pages in which it does.
pub open spec fn term_scores(words: Map<Seq<u8>, Seq<u8>>, term: Seq<char>) -> Map<u64, u64> {
    Map::new(
        |id: u64| words.contains_key(posting_key(term, id)),
        |id: u64| be_value(words[posting_key(term, id)]) as u64,
    )
}

/// The scores of two maps added up, page by page.
pub open spec fn added_scores(a: Map<u64, u64>, b: Map<u64, u64>) -> Map<u64, u64> {
    Map::new(
        |id: u64| a.contains_key(id) || b.contains_key(id),
        |id: u64| capped_sum(score_of(a, id), score_of(b, id)),
    )
}

/// The score that each page has for a query: the sum of its scores for the
/// terms of the query, a term as often as the query has it.
pub open spec fn query_scores(words: Map<Seq<u8>, Seq<u8>>, terms: Seq<Seq<char>>) -> Map<u64, u64>
    decreases terms.len(),
{
    if terms.len() == 0 {
        Map::empty()
    } else {
        added_scores(query_scores(words, terms.drop_last()), term_scores(words, terms.last()))
    }
}

/// The records of the ranked pages, in their order, without the pages of
/// which the page store has none. There is no such list where the page
/// store holds bytes for one of the pages that are no record.
pub open spec fn hydrated(index: IndexView, ranked: Seq<(u64, u64)>) -> Option<Seq<Record>>
    decreases ranked.len(),
{
    if ranked.len() == 0 {
        Some(Seq::empty())
    } else {
        match (hydrated(index, ranked.drop_last()), stored_record(index, ranked.last().0)) {
            (Some(records), Ok(Some(record))) => Some(records.push(record)),
            (Some(records), Ok(None)) => Some(records),
            _ => None,
        }
    }
}

/// The scores of the first entries of a scan, which are well made.
spec fn scanned_scores(entries: Seq<(Seq<u8>, Seq<u8>)>, prefix: int) -> Map<u64, u64>
    decreases entries.len(),
{
    if entries.len() == 0 {
        Map::empty()
    } else {
        scanned_scores(entries.drop_last(), prefix).insert(
            be_value(entries.last().0.skip(prefix)) as u64,
            be_value(entries.last().1) as u64,
        )
    }
}

/// Whether an entry of a scan is well made: its key has eight bytes after
/// the prefix, and its value has eight.
spec fn is_good_entry(entry: (Seq<u8>, Seq<u8>), prefix: int) -> bool {
    entry.0.len() == prefix + 8 && entry.1.len() == 8
}

/// The key of an entry that is well made is the key of the page that its
/// last eight bytes write.
proof fn good_entry_key(term: Seq<char>, key: Seq<u8>)
    requires
        posting_prefix(term).is_prefix_of(key),
        key.len() == posting_prefix(term).len() + 8,
    ensures
        key == posting_key(term, be_value(key.skip(posting_prefix(term).len() as int)) as u64),
        be_value(key.skip(posting_prefix(term).len() as int)) <= u64::MAX,
{
    let prefix = posting_prefix(term);
    let tail = key.skip(prefix.len() as int);
    crate::keys::be_value_bound(tail);
    crate::keys::pow256_of_eight();
    crate::keys::be_bytes_of_value(tail);
    assert(key == prefix + tail);
}

/// The key of a page's entry ends with the eight bytes of its id.
proof fn posting_key_tail(term: Seq<char>, id: u64)
    ensures
        posting_prefix(term).is_prefix_of(posting_key(term, id)),
        posting_key(term, id).len() == posting_prefix(term).len() + 8,
        posting_key(term, id).skip(posting_prefix(term).len() as int) == be8(id),
        be_value(be8(id)) == id,
{
    crate::keys::be_bytes_len(id as nat, 8);
    crate::keys::pow256_of_eight();
    crate::keys::be_value_of_bytes(id as nat, 8);
    let prefix = posting_prefix(term);
    assert(posting_key(term, id).subrange(0, prefix.len() as int) == prefix);
}

/// The scores of a whole scan for a term, all of whose entries are well
/// made, are the scores of the term.
proof fn scanned_scores_of_term(
    words: Map<Seq<u8>, Seq<u8>>,
    term: Seq<char>,
    entries: Seq<(Seq<u8>, Seq<u8>)>,
)
    requires
        is_prefix_scan(entries, words, posting_prefix(term)),
        forall|i: int|
            0 <= i < entries.len() ==> is_good_entry(
                #[trigger] entries[i],
                posting_prefix(term).len() as int,
            ),
    ensures
        scanned_scores(entries, posting_prefix(term).len() as int) == term_scores(words, term),
        !has_bad_posting(words, term),
{
    let prefix = posting_prefix(term).len() as int;
    assert forall|key: Seq<u8>| !is_bad_posting(words, term, key) by {
        if words.contains_key(key) && posting_prefix(term).is_prefix_of(key) {
            assert(holds_key(entries, key));
            let i = choose|i: int| 0 <= i < entries.len() && (#[trigger] entries[i]).0 == key;
            assert(is_good_entry(entries[i], prefix));
        }
    }
    scanned_scores_of_entries(words, term, entries, entries.len() as int);
    assert(entries.take(entries.len() as int) == entries);
    let scanned = scanned_scores(entries, prefix);
    let wanted = term_scores(words, term);
    assert forall|id: u64| scanned.contains_key(id) <==> wanted.contains_key(id) by {
        if wanted.contains_key(id) {
            posting_key_tail(term, id);
            assert(holds_key(entries, posting_key(term, id)));
            let i = choose|i: int|
                0 <= i < entries.len() && (#[trigger] entries[i]).0 == posting_key(term, id);
            assert(scanned_key(entries, entries.len() as int, posting_key(term, id)));
        }
        if scanned.contains_key(id) {
            assert(scanned_key(entries, entries.len() as int, posting_key(term, id)));
            let i = choose|i: int|
                0 <= i < entries.len() && (#[trigger] entries[i]).0 == posting_key(term, id);
            assert(words.contains_key(entries[i].0));
        }
    }
    assert(scanned == wanted);
}

/// Whether one of the first `n` entries has the key `key`.
spec fn scanned_key(entries: Seq<(Seq<u8>, Seq<u8>)>, n: int, key: Seq<u8>) -> bool {
    exists|i: int| 0 <= i < n && (#[trigger] entries[i]).0 == key
}

/// What the scores of the first `n` entries of a scan hold: the pages of
/// those entries, each with the count that the word index has for it.
proof fn scanned_scores_of_entries(
    words: Map<Seq<u8>, Seq<u8>>,
    term: Seq<char>,
    entries: Seq<(Seq<u8>, Seq<u8>)>,
    n: int,
)
    requires
        0 <= n <= entries.len(),
        is_prefix_scan(entries, words, posting_prefix(term)),
        forall|i: int|
            0 <= i < n ==> is_good_entry(#[trigger] entries[i], posting_prefix(term).len() as int),
    ensures
        forall|id: u64| #[trigger]
            scanned_scores(entries.take(n), posting_prefix(term).len() as int).contains_key(id)
                <==> scanned_key(entries, n, posting_key(term, id)),
        forall|id: u64| #[trigger]
            scanned_scores(entries.take(n), posting_prefix(term).len() as int).contains_key(id)
                ==> scanned_scores(entries.take(n), posting_prefix(term).len() as int)[id]
                == be_value(words[posting_key(term, id)]) as u64,
    decreases n,
{
    let prefix = posting_prefix(term).len() as int;
    if n > 0 {
        scanned_scores_of_entries(words, term, entries, n - 1);
        let read = entries.take(n);
        let shorter = entries.take(n - 1);
        assert(read.drop_last() == shorter);
        assert(read.last() == entries[n - 1]);
        let key = entries[n - 1].0;
        assert(is_good_entry(entries[n - 1], prefix));
        good_entry_key(term, key);
        let last_id = be_value(key.skip(prefix)) as u64;
        let last_count = be_value(entries[n - 1].1) as u64;
        let before = scanned_scores(shorter, prefix);
        let after = scanned_scores(read, prefix);
        assert(after == before.insert(last_id, last_count));
        assert(words[key] == entries[n - 1].1);
        assert forall|id: u64| #[trigger]
            after.contains_key(id) <==> scanned_key(entries, n, posting_key(term, id)) by {
            if after.contains_key(id) {
                if id == last_id {
                    assert(entries[n - 1].0 == posting_key(term, id));
                } else {
                    assert(before.contains_key(id));
                    assert(scanned_key(entries, n - 1, posting_key(term, id)));
                    let i = choose|i: int|
                        0 <= i < n - 1 && (#[trigger] entries[i]).0 == posting_key(term, id);
                    assert(entries[i].0 == posting_key(term, id));
                }
            }
            if scanned_key(entries, n, posting_key(term, id)) {
                let i = choose|i: int|
                    0 <= i < n && (#[trigger] entries[i]).0 == posting_key(term, id);
                if i == n - 1 {
                    posting_key_tail(term, id);
                } else {
                    assert(scanned_key(entries, n - 1, posting_key(term, id)));
                    assert(before.contains_key(id));
                }
            }
        }
        assert forall|id: u64| #[trigger] after.contains_key(id) implies after[id] == be_value(
            words[posting_key(term, id)],
        ) as u64 by {
            if id != last_id {
                assert(before.contains_key(id));
            }
        }
    } else {
        assert(entries.take(0) == Seq::<(Seq<u8>, Seq<u8>)>::empty());
    }
}

/// The bytes from the position `from` on.
fn bytes_from(bytes: &Vec<u8>, from: usize) -> (tail: Vec<u8>)
    requires
        from <= bytes.len(),
    ensures
        tail@ == bytes@.skip(from as int),
{
    let mut tail: Vec<u8> = Vec::new();
    let mut i: usize = from;
    while i < bytes.len()
        invariant
            from <= i <= bytes.len(),
            tail@ == bytes@.subrange(from as int, i as int),
        decreases bytes.len() - i,
    {
        tail.push(bytes[i]);
        i += 1;
    }
    tail
}

impl Index {
    /// Adds to `scores` what the word index holds for one term: for each
    /// page in which the term occurs, how often it does.
    ///
    /// An entry for the term that is not made as it should be is a bad index
    /// record.
    fn add_term_scores(&self, scores: Scores, term: &str) -> (r: Result<Scores, CeridwenError>)
        ensures
            match r {
                Ok(sum) => !has_bad_posting(self@.words, term@) && sum@ == added_scores(
                    scores@,
                    term_scores(self@.words, term@),
                ),
                Err(CeridwenError::BadIndexRecord) => has_bad_posting(self@.words, term@),
                Err(e) => e is SledError,
            },
    {
        let prefix = posting_prefix_bytes(term);
        let entries = match db_scan_prefix(&self.words, prefix.as_slice()) {
            Ok(entries) => entries,
            Err(e) => {
                return Err(CeridwenError::SledError(e));
            },
        };
        let ghost start = scores@;
        let ghost scanned = entries.deep_view();
        let ghost skip = prefix@.len() as int;
        let mut scores = scores;
        let mut i: usize = 0;
        assert(scanned.take(0) == Seq::<(Seq<u8>, Seq<u8>)>::empty());
        assert(added_scores(start, Map::<u64, u64>::empty()) == start);
        while i < entries.len()
            invariant
                i <= entries.len(),
                scanned == entries.deep_view(),
                skip == prefix@.len(),
                prefix@ == posting_prefix(term@),
                is_prefix_scan(scanned, self@.words, posting_prefix(term@)),
                forall|k: int| 0 <= k < i ==> is_good_entry(#[trigger] scanned[k], skip),
                scores@ == added_scores(start, scanned_scores(scanned.take(i as int), skip)),
            decreases entries.len() - i,
        {
            let key = &entries[i].0;
            let value = &entries[i].1;
            assert(scanned[i as int] == (key@, value@));
            if key.len() < prefix.len() || key.len() - prefix.len() != 8 {
                assert(is_bad_posting(self@.words, term@, key@));
                return Err(CeridwenError::BadIndexRecord);
            }
            let tail = bytes_from(key, prefix.len());
            let id = match id_of_bytes(tail.as_slice()) {
                Some(id) => id,
                None => {
                    return Err(CeridwenError::BadIndexRecord);
                },
            };
            let count = match id_of_bytes(value.as_slice()) {
                Some(count) => count,
                None => {
                    assert(is_bad_posting(self@.words, term@, key@));
                    return Err(CeridwenError::BadIndexRecord);
                },
            };
            proof {
                let read = scanned.take(i as int);
                let longer = scanned.take(i + 1);
                assert(longer.drop_last() == read);
                assert(longer.last() == scanned[i as int]);
                crate::keys::pow256_of_eight();
                crate::keys::be_value_of_bytes(id as nat, 8);
                crate::keys::be_value_of_bytes(count as nat, 8);
                crate::keys::be_bytes_len(count as nat, 8);
                assert(be_value(key@.skip(skip)) == id);
                assert(be_value(value@) == count);
                assert(is_good_entry(scanned[i as int], skip));
                good_entry_key(term@, key@);
                // The page is not among those of the entries before: no key
                // comes twice.
                scanned_scores_of_entries(self@.words, term@, scanned, i as int);
                let before = scanned_scores(read, skip);
                if before.contains_key(id) {
                    assert(scanned_key(scanned, i as int, posting_key(term@, id)));
                    let k = choose|k: int|
                        0 <= k < i && (#[trigger] scanned[k]).0 == posting_key(term@, id);
                    assert(scanned[k].0 != scanned[i as int].0);
                }
                assert(scanned_scores(longer, skip) == before.insert(id, count));
                assert(added_scores(start, before.insert(id, count)) == added_scores(
                    start,
                    before,
                ).insert(id, capped_sum(score_of(added_scores(start, before), id), count)));
            }
            scores = scores.add(id, count);
            i += 1;
        }
        proof {
            assert(scanned.take(entries.len() as int) == scanned);
            scanned_scores_of_term(self@.words, term@, scanned);
        }
        Ok(scores)
    }
}

/// Whether `ranked` is the ranking of the pages that a query finds in an
/// index: the pages in which a term of the query occurs, by their scores.
pub open spec fn is_query_ranking(index: IndexView, query: Seq<char>, ranked: Seq<(u64, u64)>) -> bool {
    is_ranking(ranked, query_scores(index.words, tokens_of(query)))
}

/// Whether `results` are what a search for `query` returns: the records of
/// the ranked pages, in the order of the ranking.
pub open spec fn is_search_result(index: IndexView, query: Seq<char>, results: Seq<Record>) -> bool {
    exists|ranked: Seq<(u64, u64)>| #[trigger]
        is_query_ranking(index, query, ranked) && hydrated(index, ranked) == Some(results)
}

/// Whether a search for `query` meets, among the ranked pages, bytes in the
/// page store that are no record.
pub open spec fn meets_bad_record(index: IndexView, query: Seq<char>) -> bool {
    exists|ranked: Seq<(u64, u64)>| #[trigger]
        is_query_ranking(index, query, ranked) && hydrated(index, ranked) is None
}

impl Index {
    /// The pages that a query finds, ranked: each with its score, the sum of
    /// the counts of the query's terms in it. The query is tokenised like a
    /// page; stop words are not taken out of it.
    ///
    /// An entry of the word index for a term of the query that is not made
    /// as it should be is a bad index record.
    pub fn ranked_pages(&self, search_string: &str) -> (r: Result<Vec<(u64, u64)>, CeridwenError>)
        ensures
            match r {
                Ok(ranked) => !has_bad_postings(self@.words, tokens_of(search_string@))
                    && is_query_ranking(self@, search_string@, ranked@),
                Err(CeridwenError::BadIndexRecord) => has_bad_postings(
                    self@.words,
                    tokens_of(search_string@),
                ),
                Err(e) => e is SledError,
            },
            // A query without tokens asks nothing of the store.
            tokens_of(search_string@).len() == 0 ==> r is Ok,
    {
        let terms = tokenise(search_string);
        let mut scores = Scores::new();
        let mut n: usize = 0;
        while n < terms.len()
            invariant
                n <= terms.len(),
                terms.deep_view() == tokens_of(search_string@),
                scores@ == query_scores(self@.words, terms.deep_view().take(n as int)),
                forall|i: int|
                    0 <= i < n ==> !has_bad_posting(self@.words, #[trigger] terms.deep_view()[i]),
            decreases terms.len() - n,
        {
            proof {
                assert(terms.deep_view().take(n + 1).drop_last() == terms.deep_view().take(
                    n as int,
                ));
                assert(terms.deep_view().take(n + 1).last() == terms.deep_view()[n as int]);
            }
            scores = match self.add_term_scores(scores, terms[n].as_str()) {
                Ok(scores) => scores,
                Err(e) => {
                    return Err(e);
                },
            };
            n += 1;
        }
        assert(terms.deep_view().take(terms.len() as int) == terms.deep_view());
        Ok(scores.ranked())
    }

    /// The records of ranked pages, in their order. A page of which the page
    /// store has no record is passed over.
    ///
    /// Bytes in the page store for one of the pages that are no record are a
    /// bad index record.
    pub fn hydrate(&self, ranked: &Vec<(u64, u64)>) -> (r: Result<Vec<SearchResult>, CeridwenError>)
        ensures
            match r {
                Ok(results) => hydrated(self@, ranked@) == Some(results.deep_view()),
                Err(CeridwenError::BadIndexRecord) => hydrated(self@, ranked@) is None,
                Err(e) => e is SledError,
            },
            // No pages ask nothing of the store.
            ranked@.len() == 0 ==> r is Ok,
    {
        let mut results: Vec<SearchResult> = Vec::new();
        let mut i: usize = 0;
        assert(results.deep_view() == Seq::<Record>::empty());
        assert(ranked@.take(0) == Seq::<(u64, u64)>::empty());
        while i < ranked.len()
            invariant
                i <= ranked.len(),
                hydrated(self@, ranked@.take(i as int)) == Some(results.deep_view()),
            decreases ranked.len() - i,
        {
            let ghost before = results.deep_view();
            proof {
                assert(ranked@.take(i + 1).drop_last() == ranked@.take(i as int));
                assert(ranked@.take(i + 1).last() == ranked@[i as int]);
                if hydrated(self@, ranked@.take(i + 1)) is None {
                    hydrated_from(self@, ranked@, i + 1);
                }
            }
            match self.lookup_id(ranked[i].0) {
                Ok(Some(record)) => {
                    results.push(record);
                    assert(results.deep_view() == before.push(record.deep_view()));
                },
                Ok(None) => {},
                Err(e) => {
                    return Err(e);
                },
            }
            i += 1;
        }
        assert(ranked@.take(ranked.len() as int) == ranked@);
        Ok(results)
    }

    /// Searches the index: the records of the pages in which the terms of
    /// the query occur, those in which they occur most often first, at most
    /// a hundred.
    pub fn search(&self, search_string: &str) -> (r: Result<Vec<SearchResult>, CeridwenError>)
        ensures
            match r {
                Ok(results) => !has_bad_postings(self@.words, tokens_of(search_string@))
                    && is_search_result(self@, search_string@, results.deep_view()),
                Err(CeridwenError::BadIndexRecord) => has_bad_postings(
                    self@.words,
                    tokens_of(search_string@),
                ) || meets_bad_record(self@, search_string@),
                Err(e) => e is SledError,
            },
            // A query without tokens finds nothing, and asks nothing of the
            // store.
            tokens_of(search_string@).len() == 0 ==> (r matches Ok(results) && results.len() == 0),
    {
        let ranked = match self.ranked_pages(search_string) {
            Ok(ranked) => ranked,
            Err(e) => {
                return Err(e);
            },
        };
        let r = self.hydrate(&ranked);
        proof {
            assert(is_query_ranking(self@, search_string@, ranked@));
            if tokens_of(search_string@).len() == 0 {
                let scores = query_scores(self@.words, tokens_of(search_string@));
                assert(scores == Map::<u64, u64>::empty());
                if ranked@.len() > 0 {
                    assert(scores.contains_key(ranked@[0].0));
                }
                assert(ranked@.len() == 0);
                assert(hydrated(self@, ranked@) == Some(Seq::<Record>::empty()));
                if r is Ok {
                    assert(r->Ok_0.deep_view().len() == r->Ok_0.len());
                }
            }
        }
        r
    }
}

/// Once the records of the first pages of a ranking cannot be listed,
/// neither can those of the whole ranking.
proof fn hydrated_from(index: IndexView, ranked: Seq<(u64, u64)>, n: int)
    requires
        0 <= n <= ranked.len(),
        hydrated(index, ranked.take(n)) is None,
    ensures
        hydrated(index, ranked) is None,
    decreases ranked.len() - n,
{
    if n < ranked.len() {
        assert(ranked.take(n + 1).drop_last() == ranked.take(n));
        hydrated_from(index, ranked, n + 1);
    } else {
        assert(ranked.take(n) == ranked);
    }
}

} // verus!
