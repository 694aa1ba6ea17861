//! What holds of the index store, whatever it is made to hold.

use vstd::prelude::*;
use crate::clock::Interval;
use crate::clock::Timestamp;
use crate::data::can_be_kept;
use crate::data::PageView;
use crate::data::Record;
use crate::data::record_for;
use crate::data::record_json;
use crate::data::record_of_json;
use crate::index_sled::hydrated;
use crate::store::id_after;
use crate::index_sled::indexed_at;
use crate::index_sled::indexed_page;
use crate::index_sled::IndexView;
use crate::index_sled::is_fresh;
use crate::index_sled::is_query_ranking;
use crate::index_sled::page_terms;
use crate::index_sled::carries;
use crate::index_sled::deleted;
use crate::index_sled::is_listed_key;
use crate::index_sled::listed_terms;
use crate::index_sled::lists_its_postings;
use crate::index_sled::postings_are_of_terms;
use crate::index_sled::postings_with;
use crate::index_sled::postings_without;
use crate::index_sled::term_list;
use crate::index_sled::term_parts;
use crate::index_sled::without_listed;
use crate::index_sled::written_words_replace_the_old;
use crate::keys::posting_key_of_bytes;
use crate::index_sled::postings_of;
use crate::index_sled::query_scores;
use crate::index_sled::reindexed;
use crate::index_sled::stored_record;
use crate::index_sled::takes_at_most_one_id;
use crate::index_sled::term_scores;
use crate::index_sled::with_new_page;
use crate::index_sled::with_page;
use crate::index_sled::with_words;
use crate::keys::be8;
use crate::keys::be_value;
use crate::keys::posting_key;
use crate::keys::text_bytes;
use crate::ranking::lists;
use crate::ranking::RESULT_LIMIT;
use crate::text_tools::has_term;
use crate::text_tools::is_ascii_text;
use crate::text_tools::join_with_spaces;
use crate::text_tools::tokenise_of_joined_ascii_tokens;
use crate::text_tools::is_indexed_term;
use crate::text_tools::is_tally_of;
use crate::text_tools::tally;
use crate::text_tools::tally_has_each_word;
use crate::text_tools::tally_is_tally;
use crate::text_tools::tokens_of;

verus! {

/// The eight bytes of an id are eight, and write the id.
pub proof fn be8_is_read_back(id: u64)
    ensures
        be8(id).len() == 8,
        be_value(be8(id)) == id,
{
    crate::keys::be_bytes_len(id as nat, 8);
    crate::keys::pow256_of_eight();
    crate::keys::be_value_of_bytes(id as nat, 8);
}

/// A page that was kept under the next id is found under its URL, with that
/// id and its record.
pub proof fn kept_page_is_indexed(index: IndexView, record: Record)
    requires
        can_be_kept(record),
    ensures
        indexed_page(with_page(index, record), record.url) == Ok::<_, ()>(
            Some((index.next_id, record)),
        ),
{
    be8_is_read_back(index.next_id);
}

/// Ids grow: the id that a new page gets is higher than the id that the
/// page before it got, as long as the ids have not run out.
pub proof fn stored_ids_increase(index: IndexView, first: Record)
    requires
        index.next_id < u64::MAX,
    ensures
        with_page(index, first).next_id > index.next_id,
{
}

/// Whether each of `states` but the first is the index after a call on the
/// one before it, where every call takes at most one id, as the calls that
/// write to an index do whatever they return.
pub open spec fn is_course(states: Seq<IndexView>) -> bool {
    forall|k: int|
        0 <= k < states.len() - 1 ==> takes_at_most_one_id(#[trigger] states[k], states[k + 1])
}

/// In a course of calls the next id never goes back, whichever of the calls
/// failed, as long as the ids have not run out.
pub proof fn ids_never_go_back(states: Seq<IndexView>, i: int, j: int)
    requires
        is_course(states),
        0 <= i <= j < states.len(),
        states[0].next_id + states.len() <= u64::MAX,
    ensures
        states[i].next_id <= states[j].next_id <= states[0].next_id + j,
    decreases j,
{
    if j > 0 {
        if i < j {
            ids_never_go_back(states, i, j - 1);
        } else {
            ids_never_go_back(states, i - 1, j - 1);
        }
        assert(takes_at_most_one_id(states[j - 1], states[j]));
    }
}

/// No id is given twice: of two pages that were kept in a course of calls,
/// with any calls between them, the later one has the higher id, as long as
/// the ids have not run out.
pub proof fn later_page_has_a_higher_id(
    states: Seq<IndexView>,
    i: int,
    j: int,
    first: Record,
    second: Record,
)
    requires
        is_course(states),
        0 <= i < j < states.len() - 1,
        states[0].next_id + states.len() <= u64::MAX,
        states[i + 1] == with_page(states[i], first),
        states[j + 1] == with_page(states[j], second),
    ensures
        states[i].next_id < states[j].next_id,
        indexed_page(states[i + 1], first.url) matches Ok(Some((id, _))) ==> id
            == states[i].next_id,
        indexed_page(states[j + 1], second.url) matches Ok(Some((id, _))) ==> id
            == states[j].next_id,
{
    ids_never_go_back(states, i, i);
    ids_never_go_back(states, i + 1, j);
    be8_is_read_back(states[i].next_id);
    be8_is_read_back(states[j].next_id);
}

/// Indexing a page never takes an id back: the next id stays, or is the one
/// after it.
pub proof fn indexing_keeps_the_next_id(
    index: IndexView,
    page: PageView,
    interval: Interval,
    now: Timestamp,
)
    requires
        indexed_at(index, page, interval, now) is Some,
    ensures
        indexed_at(index, page, interval, now)->0.next_id == index.next_id || indexed_at(
            index,
            page,
            interval,
            now,
        )->0.next_id == id_after(index.next_id),
{
}

/// After a page was indexed at the instant `now`, it is found under its URL
/// with a record of that instant.
pub proof fn indexed_page_has_its_record(
    index: IndexView,
    page: PageView,
    interval: Interval,
    now: Timestamp,
)
    requires
        indexed_at(index, page, interval, now) is Some,
        !(indexed_page(index, page.url) matches Ok(Some((_, record))) && is_fresh(
            record,
            interval,
            now,
        )),
    ensures
        indexed_page(indexed_at(index, page, interval, now)->0, page.url) matches Ok(
            Some((_, record)),
        ) && record == record_for(page, now),
{
    let record = record_for(page, now);
    match indexed_page(index, page.url) {
        Ok(Some((id, _))) => {
            be8_is_read_back(id);
            let after = reindexed(index, id, page, now);
            assert(after.urls == index.urls);
            assert(index.urls[text_bytes(page.url)].len() == 8);
            assert(stored_record(after, id) == Ok::<_, ()>(Some(record)));
        },
        Ok(None) => {
            kept_page_is_indexed(index, record);
            let kept = with_page(index, record);
            let after = with_new_page(index, page, now);
            assert(after.urls == kept.urls);
            assert(after.pages == kept.pages);
        },
        Err(_) => {},
    }
}

/// The instant of a page's record never goes back: where a page that is
/// indexed is indexed again, with an interval that is not negative, its
/// record afterwards is of the same instant or of a later one.
pub proof fn last_index_never_goes_back(
    index: IndexView,
    page: PageView,
    interval: Interval,
    now: Timestamp,
)
    requires
        interval.nanos >= 0,
        indexed_page(index, page.url) matches Ok(Some(_)),
        indexed_at(index, page, interval, now) is Some,
    ensures
        indexed_page(indexed_at(index, page, interval, now)->0, page.url) matches Ok(
            Some((_, record)),
        ) && indexed_page(index, page.url) matches Ok(Some((_, before)))
            && record.last_index.unix_nanos >= before.last_index.unix_nanos,
{
    let found = indexed_page(index, page.url)->Ok_0->0;
    if !is_fresh(found.1, interval, now) {
        indexed_page_has_its_record(index, page, interval, now);
    }
}

/// A page is not indexed again too soon: once a page was indexed at the
/// instant `first`, indexing a page with the same URL at an instant less
/// than `interval` after `first` leaves the index as it is.
pub proof fn refresh_is_suppressed(
    index: IndexView,
    page: PageView,
    again: PageView,
    interval: Interval,
    first: Timestamp,
    second: Timestamp,
)
    requires
        again.url == page.url,
        indexed_at(index, page, interval, first) is Some,
        !(indexed_page(index, page.url) matches Ok(Some((_, record))) && is_fresh(
            record,
            interval,
            first,
        )),
        first.unix_nanos + interval.nanos > second.unix_nanos,
    ensures
        indexed_at(indexed_at(index, page, interval, first)->0, again, interval, second)
            == indexed_at(index, page, interval, first),
{
    indexed_page_has_its_record(index, page, interval, first);
}

/// The index after pages were indexed one after the other, each at its
/// instant, where all of that can be done.
pub open spec fn indexed_all(
    index: IndexView,
    pages: Seq<PageView>,
    interval: Interval,
    times: Seq<Timestamp>,
) -> Option<IndexView>
    decreases pages.len(),
{
    if pages.len() == 0 {
        Some(index)
    } else {
        match indexed_all(index, pages.drop_last(), interval, times.drop_last()) {
            Some(before) => indexed_at(before, pages.last(), interval, times.last()),
            None => None,
        }
    }
}

/// Whether every key of the page store is the eight bytes of an id below
/// `next_id`: no page was kept under an id that is still to come.
pub open spec fn keys_are_ids_below(pages: Map<Seq<u8>, Seq<u8>>, next_id: int) -> bool {
    forall|key: Seq<u8>| #[trigger]
        pages.contains_key(key) ==> key.len() == 8 && be_value(key) < next_id
}

/// Whether the URL of one of the pages is written in the bytes `key`.
pub open spec fn is_url_of(pages: Seq<PageView>, key: Seq<u8>) -> bool {
    exists|i: int| 0 <= i < pages.len() && text_bytes((#[trigger] pages[i]).url) == key
}

/// Two texts with the same bytes are the same.
pub proof fn text_bytes_injective(a: Seq<char>, b: Seq<char>)
    requires
        text_bytes(a) == text_bytes(b),
    ensures
        a == b,
{
    vstd::utf8::encode_utf8_decode_utf8(a);
    vstd::utf8::encode_utf8_decode_utf8(b);
}

/// URLs and ids go one to one: where pages with URLs that differ from each
/// other, and that the index does not hold yet, are indexed one after the
/// other, the URL index gets one entry for each and the page store one
/// record for each. An empty index then holds as many entries and as many
/// records as pages were indexed.
pub proof fn distinct_urls_make_as_many_entries(
    index: IndexView,
    pages: Seq<PageView>,
    interval: Interval,
    times: Seq<Timestamp>,
)
    requires
        times.len() == pages.len(),
        index.urls.dom().finite(),
        index.pages.dom().finite(),
        keys_are_ids_below(index.pages, index.next_id as int),
        index.next_id + pages.len() <= u64::MAX,
        forall|i: int|
            0 <= i < pages.len() ==> !index.urls.contains_key(
                text_bytes((#[trigger] pages[i]).url),
            ),
        forall|i: int, j: int|
            0 <= i < j < pages.len() ==> (#[trigger] pages[i]).url != (
            #[trigger] pages[j]).url,
        indexed_all(index, pages, interval, times) is Some,
    ensures
        ({
            let after = indexed_all(index, pages, interval, times)->0;
            &&& after.urls.dom().finite()
            &&& after.pages.dom().finite()
            &&& after.urls.dom().len() == index.urls.dom().len() + pages.len()
            &&& after.pages.dom().len() == index.pages.dom().len() + pages.len()
            &&& after.next_id == index.next_id + pages.len()
            &&& keys_are_ids_below(after.pages, after.next_id as int)
            &&& forall|key: Seq<u8>| #[trigger]
                after.urls.contains_key(key) <==> index.urls.contains_key(key) || is_url_of(
                    pages,
                    key,
                )
        }),
    decreases pages.len(),
{
    if pages.len() > 0 {
        let earlier = pages.drop_last();
        let page = pages.last();
        let key = text_bytes(page.url);
        assert forall|i: int| 0 <= i < earlier.len() implies !index.urls.contains_key(
            text_bytes((#[trigger] earlier[i]).url),
        ) by {
            assert(earlier[i] == pages[i]);
        }
        assert forall|i: int, j: int| 0 <= i < j < earlier.len() implies (
        #[trigger] earlier[i]).url != (#[trigger] earlier[j]).url by {
            assert(earlier[i] == pages[i] && earlier[j] == pages[j]);
        }
        distinct_urls_make_as_many_entries(index, earlier, interval, times.drop_last());
        let before = indexed_all(index, earlier, interval, times.drop_last())->0;
        let after = indexed_all(index, pages, interval, times)->0;
        // The URL of the last page is new to the index.
        assert(!before.urls.contains_key(key)) by {
            assert(!index.urls.contains_key(text_bytes(pages[pages.len() - 1].url)));
            if is_url_of(earlier, key) {
                let i = choose|i: int|
                    0 <= i < earlier.len() && text_bytes((#[trigger] earlier[i]).url) == key;
                text_bytes_injective(earlier[i].url, page.url);
                assert(pages[i].url != pages[pages.len() - 1].url);
            }
        }
        let record = record_for(page, times.last());
        let kept = with_page(before, record);
        assert(after == with_new_page(before, page, times.last()));
        assert(after.urls == kept.urls);
        assert(after.pages == kept.pages);
        assert(after.next_id == kept.next_id);
        // The id of the last page is new to the page store.
        be8_is_read_back(before.next_id);
        assert(!before.pages.contains_key(be8(before.next_id)));
        assert(after.urls.dom() == before.urls.dom().insert(key));
        assert(after.pages.dom() == before.pages.dom().insert(be8(before.next_id)));
        assert forall|k: Seq<u8>| #[trigger]
            after.urls.contains_key(k) <==> index.urls.contains_key(k) || is_url_of(pages, k) by {
            if is_url_of(earlier, k) {
                let i = choose|i: int|
                    0 <= i < earlier.len() && text_bytes((#[trigger] earlier[i]).url) == k;
                assert(text_bytes(pages[i].url) == k);
            }
            if k == key {
                assert(text_bytes(pages[pages.len() - 1].url) == k);
            }
            if is_url_of(pages, k) {
                let i = choose|i: int|
                    0 <= i < pages.len() && text_bytes((#[trigger] pages[i]).url) == k;
                if i < earlier.len() {
                    assert(text_bytes(earlier[i].url) == k);
                }
            }
        }
    }
}

/// The entries for the terms of a page hold the key of each of the terms.
pub proof fn postings_hold_each_term(counts: Seq<(Seq<char>, u64)>, id: u64, j: int)
    requires
        0 <= j < counts.len(),
    ensures
        postings_of(counts, id).contains_key(posting_key(counts[j].0, id)),
    decreases counts.len(),
{
    if j < counts.len() - 1 {
        postings_hold_each_term(counts.drop_last(), id, j);
        assert(counts.drop_last()[j] == counts[j]);
    }
}

/// A page that has a score for one of the terms of a query has a score for
/// the query.
pub proof fn query_scores_hold_each_term(
    words: Map<Seq<u8>, Seq<u8>>,
    terms: Seq<Seq<char>>,
    k: int,
    id: u64,
)
    requires
        0 <= k < terms.len(),
        term_scores(words, terms[k]).contains_key(id),
    ensures
        query_scores(words, terms).contains_key(id),
    decreases terms.len(),
{
    if k < terms.len() - 1 {
        query_scores_hold_each_term(words, terms.drop_last(), k, id);
        assert(terms.drop_last()[k] == terms[k]);
    }
}

/// Whether one of the records is for the URL `url`.
pub open spec fn has_url(records: Seq<Record>, url: Seq<char>) -> bool {
    exists|i: int| 0 <= i < records.len() && (#[trigger] records[i]).url == url
}

/// The records of ranked pages hold the record of each of the pages that
/// has one in the page store.
pub proof fn hydrated_holds_each_record(index: IndexView, ranked: Seq<(u64, u64)>, p: int)
    requires
        0 <= p < ranked.len(),
        hydrated(index, ranked) is Some,
        stored_record(index, ranked[p].0) matches Ok(Some(_)),
    ensures
        has_url(hydrated(index, ranked)->0, stored_record(index, ranked[p].0)->Ok_0->0.url),
    decreases ranked.len(),
{
    let record = stored_record(index, ranked[p].0)->Ok_0->0;
    let results = hydrated(index, ranked)->0;
    let before = hydrated(index, ranked.drop_last())->0;
    if p < ranked.len() - 1 {
        assert(ranked.drop_last()[p] == ranked[p]);
        hydrated_holds_each_record(index, ranked.drop_last(), p);
        let i = choose|i: int| 0 <= i < before.len() && (#[trigger] before[i]).url == record.url;
        assert(results[i].url == record.url);
    } else {
        assert(results == before.push(record));
        assert(results[before.len() as int].url == record.url);
    }
}

/// Whether every page that has a score for a query is in the ranking.
pub open spec fn nothing_is_cut(index: IndexView, query: Seq<char>, ranked: Seq<(u64, u64)>) -> bool {
    forall|id: u64| #[trigger]
        query_scores(index.words, tokens_of(query)).contains_key(id) ==> lists(ranked, id)
}

/// What was indexed is found: after a page was indexed, a search for its
/// title returns the page, where a token of the title is a term under which
/// pages are indexed, and no page is cut from the ranking.
pub proof fn indexed_page_is_found(
    index: IndexView,
    page: PageView,
    interval: Interval,
    now: Timestamp,
    query: Seq<char>,
    k: int,
    ranked: Seq<(u64, u64)>,
)
    requires
        indexed_at(index, page, interval, now) is Some,
        !(indexed_page(index, page.url) matches Ok(Some((_, record))) && is_fresh(
            record,
            interval,
            now,
        )),
        tokens_of(query) == tokens_of(page.title),
        0 <= k < tokens_of(page.title).len(),
        is_indexed_term(tokens_of(page.title)[k]),
        is_query_ranking(indexed_at(index, page, interval, now)->0, query, ranked),
        ranked.len() < RESULT_LIMIT || nothing_is_cut(
            indexed_at(index, page, interval, now)->0,
            query,
            ranked,
        ),
        hydrated(indexed_at(index, page, interval, now)->0, ranked) is Some,
    ensures
        has_url(hydrated(indexed_at(index, page, interval, now)->0, ranked)->0, page.url),
{
    broadcast use vstd::seq_lib::group_filter_ensures;

    let after = indexed_at(index, page, interval, now)->0;
    let url = page.url;
    let term = tokens_of(page.title)[k];
    indexed_page_has_its_record(index, page, interval, now);
    let found = indexed_page(after, url)->Ok_0->0;
    let id = found.0;
    assert(stored_record(after, id) == Ok::<_, ()>(Some(record_for(page, now))));
    // The page was indexed under the term.
    let tokens = tokens_of(page.title) + tokens_of(page.content);
    let terms = page_terms(page);
    assert(tokens[k] == term);
    assert(terms.contains(term));
    let at = choose|at: int| 0 <= at < terms.len() && terms[at] == term;
    tally_has_each_word(terms, at);
    let counts = tally(terms);
    let j = choose|j: int| 0 <= j < counts.len() && (#[trigger] counts[j]).0 == term;
    postings_hold_each_term(counts, id, j);
    assert(after.words.contains_key(posting_key(term, id))) by {
        match indexed_page(index, url) {
            Ok(Some((old_id, _))) => {
                be8_is_read_back(old_id);
                assert(reindexed(index, old_id, page, now).urls == index.urls);
            },
            Ok(None) => {
                kept_page_is_indexed(index, record_for(page, now));
                assert(with_new_page(index, page, now).urls == with_page(
                    index,
                    record_for(page, now),
                ).urls);
                assert(with_new_page(index, page, now).pages == with_page(
                    index,
                    record_for(page, now),
                ).pages);
            },
            Err(_) => {},
        }
    }
    // So it has a score for the query, and is ranked.
    assert(term_scores(after.words, term).contains_key(id));
    query_scores_hold_each_term(after.words, tokens_of(query), k, id);
    assert(lists(ranked, id));
    let p = choose|p: int| 0 <= p < ranked.len() && (#[trigger] ranked[p]).0 == id;
    hydrated_holds_each_record(after, ranked, p);
}

/// A page is found by its title: after a page was indexed, a search for the
/// tokens of its title, joined by single spaces, returns the page, where the
/// title is of characters below U+0080, none of its tokens is empty, one of
/// them is a term under which pages are indexed, and no page is cut from the
/// ranking.
pub proof fn indexed_page_is_found_by_its_title(
    index: IndexView,
    page: PageView,
    interval: Interval,
    now: Timestamp,
    k: int,
    ranked: Seq<(u64, u64)>,
)
    requires
        indexed_at(index, page, interval, now) is Some,
        !(indexed_page(index, page.url) matches Ok(Some((_, record))) && is_fresh(
            record,
            interval,
            now,
        )),
        is_ascii_text(page.title),
        forall|i: int|
            0 <= i < tokens_of(page.title).len() ==> (#[trigger] tokens_of(page.title)[i]).len()
                > 0,
        0 <= k < tokens_of(page.title).len(),
        is_indexed_term(tokens_of(page.title)[k]),
        is_query_ranking(
            indexed_at(index, page, interval, now)->0,
            join_with_spaces(tokens_of(page.title)),
            ranked,
        ),
        ranked.len() < RESULT_LIMIT || nothing_is_cut(
            indexed_at(index, page, interval, now)->0,
            join_with_spaces(tokens_of(page.title)),
            ranked,
        ),
        hydrated(indexed_at(index, page, interval, now)->0, ranked) is Some,
    ensures
        has_url(hydrated(indexed_at(index, page, interval, now)->0, ranked)->0, page.url),
{
    tokenise_of_joined_ascii_tokens(page.title);
    indexed_page_is_found(
        index,
        page,
        interval,
        now,
        join_with_spaces(tokens_of(page.title)),
        k,
        ranked,
    );
}

/// Whether `key` is a well made entry of the word index: the key of a term
/// and of a page that the page store has, with a count of eight bytes that
/// is not zero.
pub open spec fn is_posting(index: IndexView, key: Seq<u8>) -> bool {
    exists|term: Seq<char>, id: u64|
        {
            &&& key == #[trigger] posting_key(term, id)
            &&& index.pages.contains_key(be8(id))
            &&& index.words[key].len() == 8
            &&& be_value(index.words[key]) > 0
        }
}

/// Whether the page store holds under `key` a record whose URL leads back to
/// it through the URL index.
pub open spec fn is_reachable_record(index: IndexView, key: Seq<u8>) -> bool {
    &&& record_of_json(index.pages[key]) is Some
    &&& index.urls.contains_key(text_bytes(record_of_json(index.pages[key])->0.url))
    &&& index.urls[text_bytes(record_of_json(index.pages[key])->0.url)] == key
}

/// Whether an index holds what it should: URLs and page ids go one to one,
/// every indexed URL has its record in the page store and every record its
/// URL in the URL index, every entry of the word index is for a page of the
/// page store with a count that is not zero, the terms of every page are
/// listed in full, and no page has an id that is still to come.
pub open spec fn is_consistent(index: IndexView) -> bool {
    &&& keys_are_ids_below(index.pages, index.next_id as int)
    &&& forall|url: Seq<u8>| #[trigger]
        index.urls.contains_key(url) ==> index.urls[url].len() == 8 && index.pages.contains_key(
            index.urls[url],
        )
    &&& forall|a: Seq<u8>, b: Seq<u8>|
        index.urls.contains_key(a) && index.urls.contains_key(b) && a != b ==> #[trigger]
        index.urls[a] != #[trigger] index.urls[b]
    &&& forall|key: Seq<u8>| #[trigger]
        index.pages.contains_key(key) ==> is_reachable_record(index, key)
    &&& forall|key: Seq<u8>| #[trigger] index.words.contains_key(key) ==> is_posting(index, key)
    &&& forall|id: u64| #[trigger] lists_its_postings(index, id)
}

/// An index that holds nothing holds what it should.
pub proof fn empty_index_is_consistent(index: IndexView)
    requires
        index.words == Map::<Seq<u8>, Seq<u8>>::empty(),
        index.pages == Map::<Seq<u8>, Seq<u8>>::empty(),
        index.urls == Map::<Seq<u8>, Seq<u8>>::empty(),
        index.terms == Map::<Seq<u8>, Seq<u8>>::empty(),
    ensures
        is_consistent(index),
{
}

/// The entries that are written for a page are well made, once the page has
/// its record.
proof fn new_postings_are_postings(
    before: IndexView,
    after: IndexView,
    page: PageView,
    id: u64,
    key: Seq<u8>,
)
    requires
        page_terms(page).len() <= u64::MAX,
        listed_terms(before, id) is Some,
        after.words == with_words(before, tally(page_terms(page)), id).words,
        after.pages.contains_key(be8(id)),
        forall|k: Seq<u8>| #[trigger] before.pages.contains_key(k) ==> after.pages.contains_key(k),
        before.words.contains_key(key) ==> is_posting(before, key),
        after.words.contains_key(key),
    ensures
        is_posting(after, key),
{
    let counts = tally(page_terms(page));
    let written = postings_of(counts, id);
    if written.contains_key(key) {
        postings_are_of_terms(counts, id, key);
        let j = choose|j: int|
            0 <= j < counts.len() && key == posting_key((#[trigger] counts[j]).0, id)
                && written[key] == be8(counts[j].1);
        tally_is_tally(page_terms(page));
        assert(counts[j].1 >= 1);
        be8_is_read_back(counts[j].1);
        assert(key == posting_key(counts[j].0, id));
    } else {
        assert(before.words.contains_key(key));
        let (term, of) = choose|term: Seq<char>, of: u64|
            {
                &&& key == #[trigger] posting_key(term, of)
                &&& before.pages.contains_key(be8(of))
                &&& before.words[key].len() == 8
                &&& be_value(before.words[key]) > 0
            };
        assert(key == posting_key(term, of));
    }
}

/// A key of the word index carries one page id.
pub proof fn key_carries_one_id(key: Seq<u8>, a: u64, b: u64)
    requires
        carries(key, a),
        carries(key, b),
    ensures
        a == b,
{
    let s = choose|term: Seq<u8>| key == #[trigger] posting_key_of_bytes(term, a);
    let t = choose|term: Seq<u8>| key == #[trigger] posting_key_of_bytes(term, b);
    crate::keys::be_bytes_len(a as nat, 8);
    crate::keys::be_bytes_len(b as nat, 8);
    assert(key.skip(key.len() - 8) == be8(a));
    assert(key.skip(key.len() - 8) == be8(b));
    crate::keys::be8_injective(a, b);
}

/// Whether the terms of a page are such as can be listed: the length of each
/// in bytes can be written in eight bytes.
pub open spec fn terms_can_be_listed(page: PageView) -> bool {
    forall|i: int|
        0 <= i < tally(page_terms(page)).len() ==> text_bytes(
            (#[trigger] tally(page_terms(page))[i]).0,
        ).len() <= u64::MAX
}

/// After the terms of a page were written, the terms of every page are
/// listed in full, where they were so before.
proof fn written_words_are_listed(index: IndexView, page: PageView, id: u64, other: u64)
    requires
        terms_can_be_listed(page),
        lists_its_postings(index, id),
        lists_its_postings(index, other),
    ensures
        lists_its_postings(with_words(index, tally(page_terms(page)), id), other),
{
    let counts = tally(page_terms(page));
    let after = with_words(index, counts, id);
    written_words_replace_the_old(index, counts, id);
    if other == id {
        let parts = term_parts(counts);
        assert forall|i: int| 0 <= i < parts.len() implies (#[trigger] parts[i]).len()
            <= u64::MAX by {
            assert(parts[i] == text_bytes(counts[i].0));
        }
        crate::keys::frames_of_framed(parts);
        assert(listed_terms(after, id) == Some(parts));
        assert forall|key: Seq<u8>| #[trigger]
            after.words.contains_key(key) && carries(key, id) implies is_listed_key(
            parts,
            id,
            key,
        ) by {
            assert(postings_with(after.words, id).contains_key(key));
            postings_are_of_terms(counts, id, key);
        }
    } else {
        be8_is_read_back(id);
        be8_is_read_back(other);
        assert(be8(other) != be8(id));
        assert(listed_terms(after, other) == listed_terms(index, other));
        assert forall|key: Seq<u8>| #[trigger]
            after.words.contains_key(key) && carries(key, other) implies is_listed_key(
            listed_terms(index, other)->0,
            other,
            key,
        ) by {
            if carries(key, id) {
                key_carries_one_id(key, id, other);
            }
            assert(postings_without(after.words, id).contains_key(key));
            assert(postings_without(index.words, id).contains_key(key));
            assert(index.words.contains_key(key));
        }
    }
}

/// Indexing a page again replaces its entries: in an index that holds what
/// it should, after a page that was indexed too long ago is indexed again,
/// the entries of the word index that carry its id are exactly those of the
/// terms that it has now, and the entries that carry other ids are as they
/// were. The id of the page stays.
pub proof fn reindexing_replaces_the_postings(
    index: IndexView,
    page: PageView,
    interval: Interval,
    now: Timestamp,
)
    requires
        is_consistent(index),
        indexed_page(index, page.url) matches Ok(Some((_, record))) && !is_fresh(
            record,
            interval,
            now,
        ),
        indexed_at(index, page, interval, now) is Some,
    ensures
        ({
            let after = indexed_at(index, page, interval, now)->0;
            let found = indexed_page(index, page.url)->Ok_0->0;
            let id = found.0;
            &&& postings_with(after.words, id) == postings_of(tally(page_terms(page)), id)
            &&& postings_without(after.words, id) == postings_without(index.words, id)
            &&& indexed_page(after, page.url) matches Ok(Some((same, _))) && same == id
        }),
{
    let found = indexed_page(index, page.url)->Ok_0->0;
    let id = found.0;
    assert(lists_its_postings(index, id));
    written_words_replace_the_old(index, tally(page_terms(page)), id);
    indexed_page_has_its_record(index, page, interval, now);
    let after = reindexed(index, id, page, now);
    assert(after.urls == index.urls);
}

/// Indexing keeps an index as it should be: an index that holds what it
/// should still does so after a page was indexed, as long as the ids have
/// not run out, the page does not have more terms than can be counted, and
/// its terms can be listed.
pub proof fn indexing_keeps_consistency(
    index: IndexView,
    page: PageView,
    interval: Interval,
    now: Timestamp,
)
    requires
        is_consistent(index),
        index.next_id < u64::MAX,
        page_terms(page).len() <= u64::MAX,
        terms_can_be_listed(page),
        indexed_at(index, page, interval, now) is Some,
    ensures
        is_consistent(indexed_at(index, page, interval, now)->0),
{
    let after = indexed_at(index, page, interval, now)->0;
    let record = record_for(page, now);
    let url_key = text_bytes(page.url);
    match indexed_page(index, page.url) {
        Ok(Some((id, old_record))) => {
            if !is_fresh(old_record, interval, now) {
                be8_is_read_back(id);
                crate::keys::be_bytes_of_value(index.urls[url_key]);
                assert(index.urls[url_key] == be8(id));
                assert(after.pages == index.pages.insert(be8(id), record_json(record)->0));
                assert(after.urls == index.urls);
                assert forall|key: Seq<u8>| #[trigger]
                    after.pages.contains_key(key) implies is_reachable_record(after, key) by {
                    if key != be8(id) {
                        assert(is_reachable_record(index, key));
                    }
                }
                assert(lists_its_postings(index, id));
                assert forall|key: Seq<u8>| #[trigger]
                    after.words.contains_key(key) implies is_posting(after, key) by {
                    new_postings_are_postings(index, after, page, id, key);
                }
                let written = with_words(index, tally(page_terms(page)), id);
                assert forall|other: u64| #[trigger] lists_its_postings(after, other) by {
                    assert(lists_its_postings(index, other));
                    written_words_are_listed(index, page, id, other);
                    assert(after.words == written.words);
                    assert(after.terms == written.terms);
                    assert(listed_terms(after, other) == listed_terms(written, other));
                }
            }
        },
        Ok(None) => {
            let id = index.next_id;
            let kept = with_page(index, record);
            be8_is_read_back(id);
            assert(after.pages == index.pages.insert(be8(id), record_json(record)->0));
            assert(after.urls == index.urls.insert(url_key, be8(id)));
            assert(after.next_id == id + 1);
            assert(!index.pages.contains_key(be8(id)));
            assert forall|url: Seq<u8>| #[trigger]
                after.urls.contains_key(url) implies after.urls[url].len() == 8
                && after.pages.contains_key(after.urls[url]) by {
                if url != url_key {
                    assert(index.urls.contains_key(url));
                }
            }
            assert forall|a: Seq<u8>, b: Seq<u8>|
                after.urls.contains_key(a) && after.urls.contains_key(b) && a != b implies #[trigger]
                after.urls[a] != #[trigger] after.urls[b] by {
                if a != url_key && b != url_key {
                    assert(index.urls[a] != index.urls[b]);
                } else if a == url_key {
                    assert(index.pages.contains_key(index.urls[b]));
                } else {
                    assert(index.pages.contains_key(index.urls[a]));
                }
            }
            assert forall|key: Seq<u8>| #[trigger]
                after.pages.contains_key(key) implies is_reachable_record(after, key) by {
                if key != be8(id) {
                    assert(is_reachable_record(index, key));
                }
            }
            assert(lists_its_postings(index, id));
            assert(listed_terms(kept, id) == listed_terms(index, id));
            assert(after.words == with_words(index, tally(page_terms(page)), id).words);
            assert forall|key: Seq<u8>| #[trigger]
                after.words.contains_key(key) implies is_posting(after, key) by {
                new_postings_are_postings(index, after, page, id, key);
            }
            let written = with_words(index, tally(page_terms(page)), id);
            assert forall|other: u64| #[trigger] lists_its_postings(after, other) by {
                assert(lists_its_postings(index, other));
                written_words_are_listed(index, page, id, other);
                assert(after.words == written.words);
                assert(after.terms == written.terms);
                assert(listed_terms(after, other) == listed_terms(written, other));
            }
        },
        Err(_) => {},
    }
}

/// Taking a page out keeps what an index should hold: after it the index
/// holds what it should where it did before, the URL is not indexed any
/// more, and no entry of the word index carries the id that the page had.
pub proof fn deleting_keeps_consistency(index: IndexView, url: Seq<char>)
    requires
        is_consistent(index),
        deleted(index, url) is Some,
    ensures
        is_consistent(deleted(index, url)->0),
        indexed_page(deleted(index, url)->0, url) == Ok::<Option<(u64, Record)>, ()>(None),
        indexed_page(index, url) matches Ok(Some((id, _))) ==> postings_with(
            deleted(index, url)->0.words,
            id,
        ) == Map::<Seq<u8>, Seq<u8>>::empty(),
{
    let after = deleted(index, url)->0;
    let url_key = text_bytes(url);
    match indexed_page(index, url) {
        Ok(Some((id, _))) => {
            be8_is_read_back(id);
            crate::keys::be_bytes_of_value(index.urls[url_key]);
            assert(index.urls[url_key] == be8(id));
            let listed = listed_terms(index, id)->0;
            assert(lists_its_postings(index, id));
            assert forall|u: Seq<u8>| #[trigger] after.urls.contains_key(u) implies after.urls[u].len()
                == 8 && after.pages.contains_key(after.urls[u]) by {
                assert(index.urls.contains_key(u));
                assert(index.urls[u] != index.urls[url_key]);
            }
            assert forall|a: Seq<u8>, b: Seq<u8>|
                after.urls.contains_key(a) && after.urls.contains_key(b) && a != b implies #[trigger]
                after.urls[a] != #[trigger] after.urls[b] by {
                assert(index.urls[a] != index.urls[b]);
            }
            assert forall|key: Seq<u8>| #[trigger]
                after.pages.contains_key(key) implies is_reachable_record(after, key) by {
                assert(is_reachable_record(index, key));
            }
            assert forall|key: Seq<u8>| #[trigger]
                after.words.contains_key(key) implies is_posting(after, key) by {
                assert(index.words.contains_key(key));
                assert(is_posting(index, key));
                let (term, of) = choose|term: Seq<char>, of: u64|
                    {
                        &&& key == #[trigger] posting_key(term, of)
                        &&& index.pages.contains_key(be8(of))
                        &&& index.words[key].len() == 8
                        &&& be_value(index.words[key]) > 0
                    };
                if of == id {
                    assert(key == posting_key_of_bytes(text_bytes(term), id));
                    assert(carries(key, id));
                    assert(is_listed_key(listed, id, key));
                } else if be8(of) == be8(id) {
                    crate::keys::be8_injective(of, id);
                }
                assert(key == posting_key(term, of));
            }
            assert forall|other: u64| #[trigger] lists_its_postings(after, other) by {
                assert(lists_its_postings(index, other));
                if other == id {
                    assert(listed_terms(after, id) == Some(Seq::<Seq<u8>>::empty()));
                    assert forall|key: Seq<u8>| #[trigger]
                        after.words.contains_key(key) && carries(key, id) implies is_listed_key(
                        Seq::<Seq<u8>>::empty(),
                        id,
                        key,
                    ) by {
                        assert(index.words.contains_key(key));
                        assert(is_listed_key(listed, id, key));
                    }
                } else {
                    if be8(other) == be8(id) {
                        crate::keys::be8_injective(other, id);
                    }
                    assert(listed_terms(after, other) == listed_terms(index, other));
                    assert forall|key: Seq<u8>| #[trigger]
                        after.words.contains_key(key) && carries(key, other) implies is_listed_key(
                        listed_terms(after, other)->0,
                        other,
                        key,
                    ) by {
                        assert(index.words.contains_key(key));
                    }
                }
            }
            assert forall|key: Seq<u8>| !(#[trigger] postings_with(after.words, id).contains_key(
                key,
            )) by {
                if after.words.contains_key(key) && carries(key, id) {
                    assert(index.words.contains_key(key));
                    assert(is_listed_key(listed, id, key));
                }
            }
            assert(postings_with(after.words, id) == Map::<Seq<u8>, Seq<u8>>::empty());
        },
        Ok(None) => {},
        Err(_) => {},
    }
}

} // verus!
