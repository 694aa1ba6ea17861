//! The Wikipedia ingester: reading the pages of a dump one after the other,
//! stripping them of MediaWiki markup, and handing them to the index.

use vstd::prelude::*;
use vstd::string::StringExecFns;
use vstd::utf8::decode_utf8;
use vstd::utf8::valid_utf8;
use crate::clock::formatted_instant;
use crate::clock::Interval;
use crate::clock::rfc2822_instant;
use crate::clock::Timestamp;
use crate::data::Page;
use crate::data::PageUrl;
use crate::data::PageView;
use crate::data::url_parse;
use crate::error::CeridwenError;
use crate::index_sled::Index;
use crate::index_sled::indexed_at;
use crate::keys::bytes_of;
use crate::keys::text_bytes;
use crate::rss_ingester::FeedItem;
use crate::strings::from_utf8;
use crate::strings::push_char;
use crate::strings::starts_with;

verus! {

/// Where a scanner stands relative to the regions that it looks for.
#[derive(Clone, Copy, Debug, PartialEq, Eq, Structural)]
pub enum Phase {
    /// Not in a region.
    Outside,
    /// The first character of an opening pair was seen.
    Starting,
    /// In a region.
    Inside,
    /// In a region, and the first character of a closing pair was seen.
    Ending,
}

/// The two characters that open a region and the two that close it.
pub struct Delimiters {
    pub start1: char,
    pub start2: char,
    pub end1: char,
    pub end2: char,
}

/// The state of the region scanner: its phase, how many regions are open
/// around it, and the text kept so far.
pub struct RegionScan {
    pub phase: Phase,
    pub depth: nat,
    pub kept: Seq<char>,
}

/// The scanner before the first character.
pub open spec fn region_start() -> RegionScan {
    RegionScan { phase: Phase::Outside, depth: 0, kept: Seq::empty() }
}

/// A character's effect outside all regions: it is kept, but for `start1`,
/// which is held back until the next character shows whether a region opens.
pub open spec fn outside_step(kept: Seq<char>, c: char, d: Delimiters) -> RegionScan {
    if c == d.start1 {
        RegionScan { phase: Phase::Starting, depth: 0, kept }
    } else {
        RegionScan { phase: Phase::Outside, depth: 0, kept: kept.push(c) }
    }
}

/// A character's effect in a region: nothing is kept; `end1` may begin the
/// end of the region, `start1` the beginning of a region in it.
pub open spec fn inside_step(depth: nat, kept: Seq<char>, c: char, d: Delimiters) -> RegionScan {
    if c == d.end1 {
        RegionScan { phase: Phase::Ending, depth, kept }
    } else if c == d.start1 {
        RegionScan { phase: Phase::Starting, depth, kept }
    } else {
        RegionScan { phase: Phase::Inside, depth, kept }
    }
}

/// One character's effect on the region scanner.
///
/// A `start1` that no `start2` follows, and an `end1` that no `end2` follows,
/// open and close nothing: the character after them is read as if they were
/// any other character. Outside all regions such a `start1` is kept; in a
/// region it is passed over with the rest.
pub open spec fn region_step(s: RegionScan, c: char, d: Delimiters) -> RegionScan {
    match s.phase {
        Phase::Outside => outside_step(s.kept, c, d),
        Phase::Starting => if c == d.start2 {
            RegionScan { phase: Phase::Inside, depth: s.depth + 1, kept: s.kept }
        } else if s.depth == 0 {
            outside_step(s.kept.push(d.start1), c, d)
        } else {
            inside_step(s.depth, s.kept, c, d)
        },
        Phase::Inside => inside_step(s.depth, s.kept, c, d),
        Phase::Ending => if c == d.end2 {
            if s.depth <= 1 {
                RegionScan { phase: Phase::Outside, depth: 0, kept: s.kept }
            } else {
                RegionScan { phase: Phase::Inside, depth: (s.depth - 1) as nat, kept: s.kept }
            }
        } else {
            inside_step(s.depth, s.kept, c, d)
        },
    }
}

/// The scanner after it has read `text`, starting in state `s`.
pub open spec fn region_scan(s: RegionScan, text: Seq<char>, d: Delimiters) -> RegionScan
    decreases text.len(),
{
    if text.len() == 0 {
        s
    } else {
        region_step(region_scan(s, text.drop_last(), d), text.last(), d)
    }
}

/// What the scanner hands out at the end of the text: what it kept, and a
/// `start1` that it still held back outside any region.
pub open spec fn region_result(s: RegionScan, d: Delimiters) -> Seq<char> {
    if s.phase == Phase::Starting && s.depth == 0 {
        s.kept.push(d.start1)
    } else {
        s.kept
    }
}

/// A text without its regions between `start1 start2` and `end1 end2`.
pub open spec fn without_regions(text: Seq<char>, d: Delimiters) -> Seq<char> {
    region_result(region_scan(region_start(), text, d), d)
}

/// The depth of the scanner never exceeds the number of characters read.
pub proof fn region_depth_bound(text: Seq<char>, d: Delimiters)
    ensures
        region_scan(region_start(), text, d).depth <= text.len(),
        region_scan(region_start(), text, d).phase == Phase::Outside ==> region_scan(
            region_start(),
            text,
            d,
        ).depth == 0,
    decreases text.len(),
{
    if text.len() > 0 {
        region_depth_bound(text.drop_last(), d);
    }
}

/// Removes every region that opens with `start1 start2` and closes with
/// `end1 end2`, nested regions together with the one around them. A single
/// `start1` or `end1` opens and closes nothing: outside the regions it is
/// kept, in a region it goes with the region. A region that is not closed
/// goes on to the end of the text.
pub fn filter_between(content: &str, start1: char, start2: char, end1: char, end2: char) -> (result:
    String)
    ensures
        result@ == without_regions(
            content@,
            Delimiters { start1, start2, end1, end2 },
        ),
{
    broadcast use vstd::string::group_string_axioms;

    let ghost d = Delimiters { start1, start2, end1, end2 };
    let length = content.unicode_len();
    let mut result = String::new();
    let mut phase = Phase::Outside;
    let mut depth: usize = 0;
    for c in it: content.chars()
        invariant
            it.seq() == content@,
            length == content@.len(),
            d == (Delimiters { start1, start2, end1, end2 }),
            region_scan(region_start(), content@.take(it.index() as int), d) == (RegionScan {
                phase,
                depth: depth as nat,
                kept: result@,
            }),
    {
        proof {
            let read = content@.take(it.index() as int);
            region_depth_bound(read, d);
            assert(content@.take(it.index() + 1).drop_last() == read);
            assert(content@.take(it.index() + 1).last() == c);
        }
        match phase {
            Phase::Outside => {
                if c == start1 {
                    phase = Phase::Starting;
                    depth = 0;
                } else {
                    push_char(&mut result, c);
                }
            },
            Phase::Starting => {
                if c == start2 {
                    phase = Phase::Inside;
                    depth = depth + 1;
                } else if depth == 0 {
                    push_char(&mut result, start1);
                    if c == start1 {
                        phase = Phase::Starting;
                    } else {
                        phase = Phase::Outside;
                        push_char(&mut result, c);
                    }
                } else if c == end1 {
                    phase = Phase::Ending;
                } else if c == start1 {
                    phase = Phase::Starting;
                } else {
                    phase = Phase::Inside;
                }
            },
            Phase::Inside => {
                if c == end1 {
                    phase = Phase::Ending;
                } else if c == start1 {
                    phase = Phase::Starting;
                }
            },
            Phase::Ending => {
                if c == end2 {
                    if depth <= 1 {
                        phase = Phase::Outside;
                        depth = 0;
                    } else {
                        phase = Phase::Inside;
                        depth = depth - 1;
                    }
                } else if c == end1 {
                    phase = Phase::Ending;
                } else if c == start1 {
                    phase = Phase::Starting;
                } else {
                    phase = Phase::Inside;
                }
            },
        }
    }
    assert(content@.take(content@.len() as int) == content@);
    match phase {
        Phase::Starting => {
            if depth == 0 {
                push_char(&mut result, start1);
            }
        },
        _ => {},
    }
    result
}

/// The state of the link scanner: its phase, the text of each link that is
/// open around it, the innermost last, and the text kept so far.
pub struct LinkScan {
    pub phase: Phase,
    pub open: Seq<Seq<char>>,
    pub kept: Seq<char>,
}

/// The link scanner before the first character.
pub open spec fn link_start() -> LinkScan {
    LinkScan { phase: Phase::Outside, open: Seq::empty(), kept: Seq::empty() }
}

/// The open links with `text` added to the innermost.
pub open spec fn extend_innermost(open: Seq<Seq<char>>, text: Seq<char>) -> Seq<Seq<char>> {
    open.drop_last().push(open.last() + text)
}

/// A character's effect outside all links, on the text `kept` so far: it is
/// kept, but for `[`, which is held back until the next character shows
/// whether a link opens.
pub open spec fn outside_link_step(s: LinkScan, kept: Seq<char>, c: char) -> LinkScan {
    if c == '[' {
        LinkScan { phase: Phase::Starting, kept, ..s }
    } else {
        LinkScan { phase: Phase::Outside, kept: kept.push(c), ..s }
    }
}

/// A character's effect in a link: it is collected as text of the link; `|`
/// throws away what was collected, so that only what follows the last `|`
/// stays; `]` may begin the end of the link, `[` the beginning of a link in
/// it.
pub open spec fn inside_link_step(open: Seq<Seq<char>>, kept: Seq<char>, c: char) -> LinkScan {
    if c == ']' {
        LinkScan { phase: Phase::Ending, open, kept }
    } else if c == '|' {
        LinkScan { phase: Phase::Inside, open: open.drop_last().push(Seq::empty()), kept }
    } else if c == '[' {
        LinkScan { phase: Phase::Starting, open, kept }
    } else {
        LinkScan { phase: Phase::Inside, open: extend_innermost(open, seq![c]), kept }
    }
}

/// One character's effect on the link scanner.
///
/// The closing `]]` hands the text of a link to the link around it, or to
/// the kept text where there is none. A `[` that no `[` follows, and a `]`
/// that no `]` follows, open and close nothing: they are text like any other
/// character, kept outside all links and collected in a link, and the
/// character after them is read afresh.
pub open spec fn link_step(s: LinkScan, c: char) -> LinkScan {
    match s.phase {
        Phase::Outside => outside_link_step(s, s.kept, c),
        Phase::Starting => if c == '[' {
            LinkScan { phase: Phase::Inside, open: s.open.push(Seq::empty()), kept: s.kept }
        } else if s.open.len() == 0 {
            outside_link_step(s, s.kept.push('['), c)
        } else {
            inside_link_step(extend_innermost(s.open, seq!['[']), s.kept, c)
        },
        Phase::Inside => inside_link_step(s.open, s.kept, c),
        Phase::Ending => if c == ']' {
            if s.open.len() <= 1 {
                LinkScan {
                    phase: Phase::Outside,
                    open: Seq::empty(),
                    kept: s.kept + s.open.last(),
                }
            } else {
                LinkScan {
                    phase: Phase::Inside,
                    open: extend_innermost(s.open.drop_last(), s.open.last()),
                    kept: s.kept,
                }
            }
        } else {
            inside_link_step(extend_innermost(s.open, seq![']']), s.kept, c)
        },
    }
}

/// The link scanner after it has read `text`, starting in state `s`.
pub open spec fn link_scan(s: LinkScan, text: Seq<char>) -> LinkScan
    decreases text.len(),
{
    if text.len() == 0 {
        s
    } else {
        link_step(link_scan(s, text.drop_last()), text.last())
    }
}

/// What the link scanner hands out at the end of the text: what it kept, and
/// a `[` that it still held back outside any link.
pub open spec fn link_result(s: LinkScan) -> Seq<char> {
    if s.phase == Phase::Starting && s.open.len() == 0 {
        s.kept.push('[')
    } else {
        s.kept
    }
}

/// A text with each `[[ ... ]]` link replaced by its display text.
pub open spec fn links_replaced(text: Seq<char>) -> Seq<char> {
    link_result(link_scan(link_start(), text))
}

/// Whether a scanner state is one that reading can reach: a link is open
/// exactly when the scanner is not outside.
pub open spec fn link_scan_wf(s: LinkScan) -> bool {
    match s.phase {
        Phase::Outside => s.open.len() == 0,
        Phase::Starting => true,
        Phase::Inside => s.open.len() >= 1,
        Phase::Ending => s.open.len() >= 1,
    }
}

/// Reading keeps the link scanner well formed, and opens at most one link
/// for each character read.
pub proof fn link_scan_bound(text: Seq<char>)
    ensures
        link_scan_wf(link_scan(link_start(), text)),
        link_scan(link_start(), text).open.len() <= text.len(),
    decreases text.len(),
{
    if text.len() > 0 {
        link_scan_bound(text.drop_last());
    }
}

/// Replaces each `[[ ... ]]` link by what it displays: the text after its last
/// `|`, or its whole text where it has none. Nested links are replaced first.
/// A single `[` or `]` is text like any other, outside a link and in one. A
/// link that is not closed is left out.
pub fn filter_square_brackets(content: &str) -> (result: String)
    ensures
        result@ == links_replaced(content@),
{
    broadcast use vstd::string::group_string_axioms;

    let mut result = String::new();
    let mut phase = Phase::Outside;
    // The texts of the links around the innermost, and the innermost's own.
    let mut outer: Vec<String> = Vec::new();
    let mut innermost = String::new();
    let mut in_link = false;
    assert(outer.deep_view() == Seq::<Seq<char>>::empty());
    for c in it: content.chars()
        invariant
            it.seq() == content@,
            link_scan(link_start(), content@.take(it.index() as int)) == (LinkScan {
                phase,
                open: if in_link {
                    outer.deep_view().push(innermost@)
                } else {
                    Seq::empty()
                },
                kept: result@,
            }),
            !in_link ==> outer.len() == 0,
    {
        let ghost before = link_scan(link_start(), content@.take(it.index() as int));
        let ghost around = outer.deep_view();
        proof {
            let read = content@.take(it.index() as int);
            link_scan_bound(read);
            assert(content@.take(it.index() + 1).drop_last() == read);
            assert(content@.take(it.index() + 1).last() == c);
            if in_link {
                assert(before.open.drop_last() == around);
                assert(before.open.last() == innermost@);
            }
        }
        let ghost next = link_step(before, c);
        match phase {
            Phase::Outside => {
                if c == '[' {
                    phase = Phase::Starting;
                } else {
                    push_char(&mut result, c);
                }
            },
            Phase::Starting => {
                if c == '[' {
                    if in_link {
                        outer.push(innermost);
                        assert(outer.deep_view() == before.open);
                    }
                    innermost = String::new();
                    in_link = true;
                    phase = Phase::Inside;
                } else if !in_link {
                    phase = Phase::Outside;
                    push_char(&mut result, '[');
                    push_char(&mut result, c);
                } else {
                    push_char(&mut innermost, '[');
                    let ghost lone = extend_innermost(before.open, seq!['[']);
                    assert(innermost@ == before.open.last() + seq!['[']);
                    assert(lone.drop_last() == around);
                    if c == ']' {
                        phase = Phase::Ending;
                    } else if c == '|' {
                        innermost = String::new();
                        phase = Phase::Inside;
                    } else {
                        phase = Phase::Inside;
                        push_char(&mut innermost, c);
                        assert(innermost@ == lone.last() + seq![c]);
                    }
                }
            },
            Phase::Inside => {
                if c == ']' {
                    phase = Phase::Ending;
                } else if c == '|' {
                    innermost = String::new();
                } else if c == '[' {
                    phase = Phase::Starting;
                } else {
                    push_char(&mut innermost, c);
                    assert(innermost@ == before.open.last() + seq![c]);
                }
            },
            Phase::Ending => {
                if c == ']' {
                    match outer.pop() {
                        None => {
                            result.append(innermost.as_str());
                            innermost = String::new();
                            in_link = false;
                            phase = Phase::Outside;
                        },
                        Some(mut around_it) => {
                            around_it.append(innermost.as_str());
                            innermost = around_it;
                            phase = Phase::Inside;
                            proof {
                                assert(outer.deep_view() == around.drop_last());
                                assert(before.open.drop_last().drop_last() == around.drop_last());
                                assert(before.open.drop_last().last() == around.last());
                            }
                        },
                    }
                } else {
                    push_char(&mut innermost, ']');
                    let ghost lone = extend_innermost(before.open, seq![']']);
                    assert(innermost@ == before.open.last() + seq![']']);
                    assert(lone.drop_last() == around);
                    if c == '|' {
                        innermost = String::new();
                        phase = Phase::Inside;
                    } else if c == '[' {
                        phase = Phase::Starting;
                    } else {
                        phase = Phase::Inside;
                        push_char(&mut innermost, c);
                        assert(innermost@ == lone.last() + seq![c]);
                    }
                }
            },
        }
        assert(next.phase == phase);
        assert(next.kept == result@);
        assert(in_link ==> next.open == outer.deep_view().push(innermost@));
        assert(!in_link ==> next.open == Seq::<Seq<char>>::empty());
    }
    assert(content@.take(content@.len() as int) == content@);
    match phase {
        Phase::Starting => {
            if !in_link {
                push_char(&mut result, '[');
            }
        },
        _ => {},
    }
    result
}

/// A text without its heading marks: every `==` is taken out, from the left.
pub open spec fn without_heading_marks(text: Seq<char>) -> Seq<char>
    decreases text.len(),
{
    if text.len() >= 2 && text[0] == '=' && text[1] == '=' {
        without_heading_marks(text.skip(2))
    } else if text.len() > 0 {
        seq![text[0]] + without_heading_marks(text.skip(1))
    } else {
        Seq::empty()
    }
}

/// Takes every `==` out of a text, from the left.
pub fn remove_heading_marks(text: &str) -> (result: String)
    ensures
        result@ == without_heading_marks(text@),
{
    broadcast use vstd::string::group_string_axioms;

    let mut result = String::new();
    // A `=` that was read and may yet be the first of two.
    let mut held = false;
    assert(text@.skip(0) == text@);
    assert(Seq::<char>::empty() + without_heading_marks(text@) == without_heading_marks(text@));
    for c in it: text.chars()
        invariant
            it.seq() == text@,
            without_heading_marks(text@) == result@ + without_heading_marks(
                if held {
                    seq!['='] + text@.skip(it.index() as int)
                } else {
                    text@.skip(it.index() as int)
                },
            ),
    {
        let ghost rest = text@.skip(it.index() as int);
        let ghost after = text@.skip(it.index() + 1);
        let ghost kept = result@;
        proof {
            assert(rest[0] == c);
            assert(rest.skip(1) == after);
        }
        if held {
            let ghost pending = seq!['='] + rest;
            assert(pending[0] == '=' && pending[1] == c);
            if c == '=' {
                assert(pending.skip(2) == after);
                assert(without_heading_marks(pending) == without_heading_marks(after));
            } else {
                assert(pending.skip(1) == rest);
                assert(without_heading_marks(pending) == seq!['='] + without_heading_marks(rest));
                assert(without_heading_marks(rest) == seq![c] + without_heading_marks(after));
                push_char(&mut result, '=');
                push_char(&mut result, c);
                assert(result@ + without_heading_marks(after) == kept + (seq!['='] + (seq![c]
                    + without_heading_marks(after))));
            }
            held = false;
        } else if c == '=' {
            held = true;
            assert(seq!['='] + after == rest);
        } else {
            assert(without_heading_marks(rest) == seq![c] + without_heading_marks(after));
            push_char(&mut result, c);
            assert(result@ + without_heading_marks(after) == kept + (seq![c]
                + without_heading_marks(after)));
        }
    }
    let ghost end = text@.skip(text@.len() as int);
    assert(end.len() == 0);
    if held {
        let ghost kept = result@;
        let ghost pending = seq!['='] + end;
        assert(pending.len() == 1);
        assert(pending.skip(1).len() == 0);
        assert(without_heading_marks(pending.skip(1)) == Seq::<char>::empty());
        assert(without_heading_marks(pending) == seq!['='] + Seq::<char>::empty());
        push_char(&mut result, '=');
        assert(kept + (seq!['='] + Seq::<char>::empty()) == result@);
    } else {
        assert(without_heading_marks(end) == Seq::<char>::empty());
        assert(result@ + Seq::<char>::empty() == result@);
    }
    result
}

/// The text of a page without its markup: templates, tables, the brackets
/// of links and what in a link is not displayed, and heading marks.
pub open spec fn stripped(content: Seq<char>) -> Seq<char> {
    let templates = Delimiters { start1: '{', start2: '{', end1: '}', end2: '}' };
    let tables = Delimiters { start1: '{', start2: '|', end1: '|', end2: '}' };
    without_heading_marks(
        links_replaced(without_regions(without_regions(content, templates), tables)),
    )
}

/// A page with its text stripped of MediaWiki markup.
pub open spec fn stripped_page(page: PageView) -> PageView {
    PageView { content: stripped(page.content), ..page }
}

/// The page with its text stripped of MediaWiki markup.
pub fn strip_page(page: &Page) -> (clean: Page)
    ensures
        clean@ == stripped_page(page@),
        clean.url@ == page.url@,
{
    let without_templates = filter_between(page.content.as_str(), '{', '{', '}', '}');
    let without_tables = filter_between(without_templates.as_str(), '{', '|', '|', '}');
    let without_links = filter_square_brackets(without_tables.as_str());
    let content = remove_heading_marks(without_links.as_str());
    Page { url: page.url.duplicate(), title: page.title.clone(), content }
}

/// A title with an underscore for every space.
pub open spec fn slug_of(title: Seq<char>) -> Seq<char> {
    title.map_values(
        |c: char|
            if c == ' ' {
                '_'
            } else {
                c
            },
    )
}

/// Where the articles of the English Wikipedia are found.
pub open spec fn article_base() -> Seq<char> {
    "https://en.wikipedia.org/wiki/"@
}

/// The URL of the article with a title: spaces become underscores, nothing
/// else is changed.
pub fn create_url(title: &str) -> (r: Result<PageUrl, CeridwenError>)
    ensures
        match r {
            Ok(url) => url_parse(article_base() + slug_of(title@)) == Some(url@),
            Err(e) => url_parse(article_base() + slug_of(title@)) is None && e is UrlParsing,
        },
{
    broadcast use vstd::string::group_string_axioms;

    let mut text = "https://en.wikipedia.org/wiki/".to_string();
    for c in it: title.chars()
        invariant
            it.seq() == title@,
            text@ == article_base() + slug_of(title@.take(it.index() as int)),
    {
        let ghost before = title@.take(it.index() as int);
        assert(title@.take(it.index() + 1) == before.push(c));
        if c == ' ' {
            push_char(&mut text, '_');
        } else {
            push_char(&mut text, c);
        }
        assert(text@ == article_base() + slug_of(before.push(c)));
    }
    assert(title@.take(title@.len() as int) == title@);
    PageUrl::parse(text.as_str())
}

/// Whether a page only points to another page: its text begins with
/// `#REDIRECT`.
pub open spec fn is_redirect(content: Seq<char>) -> bool {
    "#REDIRECT"@.is_prefix_of(content)
}

/// Indexes a page of Wikipedia at the instant `now`: a page that only points
/// to another is passed over, any other is indexed without its markup.
///
/// Where a store fails, nothing is said of what the index then holds.
pub fn process_page_at(
    index: &mut Index,
    page: &Page,
    min_update_interval: Interval,
    now: Timestamp,
) -> (r: Result<(), CeridwenError>)
    ensures
        match r {
            Ok(()) => if is_redirect(page.content@) {
                final(index)@ == old(index)@
            } else {
                indexed_at(old(index)@, stripped_page(page@), min_update_interval, now) == Some(
                    final(index)@,
                )
            },
            Err(CeridwenError::BadIndexRecord) => !is_redirect(page.content@) && indexed_at(
                old(index)@,
                stripped_page(page@),
                min_update_interval,
                now,
            ) is None,
            Err(e) => !is_redirect(page.content@) && e is SledError,
        },
{
    if starts_with(page.content.as_str(), "#REDIRECT") {
        Ok(())
    } else {
        let clean = strip_page(page);
        index.add_page_at(&clean, min_update_interval, now)
    }
}

/// Indexes a page of Wikipedia now: see `process_page_at`.
pub fn process_page(index: &mut Index, page: &Page, min_update_interval: Interval) -> (r: Result<
    (),
    CeridwenError,
>)
    ensures
        match r {
            Ok(()) => if is_redirect(page.content@) {
                final(index)@ == old(index)@
            } else {
                exists|now: Timestamp| #[trigger]
                    indexed_at(old(index)@, stripped_page(page@), min_update_interval, now)
                        == Some(final(index)@)
            },
            Err(e) => !is_redirect(page.content@) && (e is BadIndexRecord || e is SledError),
        },
{
    process_page_at(index, page, min_update_interval, Timestamp::now())
}

/// What `quick_xml::escape::unescape` makes of a text: the text with every
/// XML escape replaced by what it stands for, or nothing where the text holds
/// an escape that is none.
pub uninterp spec fn xml_unescaped(raw: Seq<char>) -> Option<Seq<char>>;

/// Calls `quick_xml::escape::unescape`; what it makes of a text is named
/// `xml_unescaped`.
#[verifier::external_body]
fn xml_unescape(raw: &str) -> (r: Result<String, quick_xml::escape::EscapeError>)
    ensures
        match r {
            Ok(text) => xml_unescaped(raw@) == Some(text@),
            Err(_) => xml_unescaped(raw@) is None,
        },
{
    quick_xml::escape::unescape(raw).map(|text| text.into_owned())
}

/// The text that the bytes of an XML element hold: they are read as UTF-8,
/// and the escapes in them replaced.
pub open spec fn element_text(raw: Seq<u8>) -> Option<Seq<char>> {
    if valid_utf8(raw) {
        xml_unescaped(decode_utf8(raw))
    } else {
        None
    }
}

/// The text that the bytes of an XML element hold.
pub fn read_element_text(raw: &[u8]) -> (r: Result<String, CeridwenError>)
    ensures
        match r {
            Ok(text) => element_text(raw@) == Some(text@),
            Err(e) => element_text(raw@) is None && e is InvalidXML,
        },
{
    match from_utf8(raw) {
        Some(decoded) => match xml_unescape(decoded) {
            Ok(text) => Ok(text),
            Err(e) => Err(CeridwenError::InvalidXML(Some(e))),
        },
        None => Err(CeridwenError::InvalidXML(None)),
    }
}

/// An event of an XML reader, as far as the page reader looks at it.
#[derive(Debug, Clone)]
pub enum XmlEvent {
    /// The start of an element, with its name.
    Start(Vec<u8>),
    /// The end of an element, with its name.
    End(Vec<u8>),
    /// Text between tags, as it stands in the file.
    Text(Vec<u8>),
    /// The end of the file.
    Eof,
    /// Anything else.
    Other,
}

/// An event as a value of specifications.
pub enum XmlEventView {
    Start(Seq<u8>),
    End(Seq<u8>),
    Text(Seq<u8>),
    Eof,
    Other,
}

impl View for XmlEvent {
    type V = XmlEventView;

    open spec fn view(&self) -> XmlEventView {
        match self {
            XmlEvent::Start(name) => XmlEventView::Start(name@),
            XmlEvent::End(name) => XmlEventView::End(name@),
            XmlEvent::Text(raw) => XmlEventView::Text(raw@),
            XmlEvent::Eof => XmlEventView::Eof,
            XmlEvent::Other => XmlEventView::Other,
        }
    }
}

/// How far the page reader has come in a page of the dump.
#[derive(Debug)]
pub enum PageState {
    /// Before the title.
    Limbo1,
    /// The title element has begun.
    TitleStarted,
    /// The title was read.
    Title { title: String },
    /// Between the title and the text.
    Limbo2 { title: String },
    /// The text element has begun.
    TextStarted { title: String },
    /// The text was read.
    Text { title: String, text: String },
    /// After the text, before the end of the page.
    Limbo4 { title: String, text: String },
}

/// A state of the page reader as a value of specifications.
pub enum PageStateView {
    Limbo1,
    TitleStarted,
    Title { title: Seq<char> },
    Limbo2 { title: Seq<char> },
    TextStarted { title: Seq<char> },
    Text { title: Seq<char>, text: Seq<char> },
    Limbo4 { title: Seq<char>, text: Seq<char> },
}

impl View for PageState {
    type V = PageStateView;

    open spec fn view(&self) -> PageStateView {
        match self {
            PageState::Limbo1 => PageStateView::Limbo1,
            PageState::TitleStarted => PageStateView::TitleStarted,
            PageState::Title { title } => PageStateView::Title { title: title@ },
            PageState::Limbo2 { title } => PageStateView::Limbo2 { title: title@ },
            PageState::TextStarted { title } => PageStateView::TextStarted { title: title@ },
            PageState::Text { title, text } => PageStateView::Text { title: title@, text: text@ },
            PageState::Limbo4 { title, text } => PageStateView::Limbo4 {
                title: title@,
                text: text@,
            },
        }
    }
}

/// What the page reader does on an event, as a value of specifications.
pub enum Stepped {
    /// It goes on in a state.
    Next(PageStateView),
    /// It has read a page.
    Page { title: Seq<char>, text: Seq<char> },
    /// The dump has no more pages.
    End,
    /// The event must not come in the state.
    Invalid,
    /// The text of an element cannot be read.
    BadText,
}

/// The name of the title element.
pub open spec fn title_name() -> Seq<u8> {
    text_bytes("title"@)
}

/// The name of the text element.
pub open spec fn text_name() -> Seq<u8> {
    text_bytes("text"@)
}

/// The name of the page element.
pub open spec fn page_name() -> Seq<u8> {
    text_bytes("page"@)
}

/// What the page reader does in a state on an event.
///
/// Before the title, between the title and the text, and after the text it
/// passes over what it does not look for. Where it waits for a text or for
/// the end of an element, anything else is invalid, and so is the end of the
/// file anywhere but before a title.
pub open spec fn stepped(state: PageStateView, event: XmlEventView) -> Stepped {
    match state {
        PageStateView::Limbo1 => match event {
            XmlEventView::Eof => Stepped::End,
            XmlEventView::Start(name) => if name == title_name() {
                Stepped::Next(PageStateView::TitleStarted)
            } else {
                Stepped::Next(state)
            },
            _ => Stepped::Next(state),
        },
        PageStateView::TitleStarted => match event {
            XmlEventView::Text(raw) => match element_text(raw) {
                Some(title) => Stepped::Next(PageStateView::Title { title }),
                None => Stepped::BadText,
            },
            _ => Stepped::Invalid,
        },
        PageStateView::Title { title } => match event {
            XmlEventView::End(name) => if name == title_name() {
                Stepped::Next(PageStateView::Limbo2 { title })
            } else {
                Stepped::Invalid
            },
            _ => Stepped::Invalid,
        },
        PageStateView::Limbo2 { title } => match event {
            XmlEventView::Eof => Stepped::Invalid,
            XmlEventView::Start(name) => if name == text_name() {
                Stepped::Next(PageStateView::TextStarted { title })
            } else {
                Stepped::Next(state)
            },
            _ => Stepped::Next(state),
        },
        PageStateView::TextStarted { title } => match event {
            XmlEventView::Text(raw) => match element_text(raw) {
                Some(text) => Stepped::Next(PageStateView::Text { title, text }),
                None => Stepped::BadText,
            },
            _ => Stepped::Invalid,
        },
        PageStateView::Text { title, text } => match event {
            XmlEventView::End(name) => if name == text_name() {
                Stepped::Next(PageStateView::Limbo4 { title, text })
            } else {
                Stepped::Invalid
            },
            _ => Stepped::Invalid,
        },
        PageStateView::Limbo4 { title, text } => match event {
            XmlEventView::Eof => Stepped::Invalid,
            XmlEventView::End(name) => if name == page_name() {
                Stepped::Page { title, text }
            } else {
                Stepped::Next(state)
            },
            _ => Stepped::Next(state),
        },
    }
}

/// What the page reader does on an event.
#[derive(Debug)]
pub enum Step {
    /// It goes on in a state.
    Next(PageState),
    /// It has read a page.
    Page(Page),
    /// The dump has no more pages.
    End,
}

/// Whether a name is the one that is looked for.
fn is_name(name: &Vec<u8>, wanted: &str) -> (b: bool)
    ensures
        b == (name@ == text_bytes(wanted@)),
{
    let bytes = bytes_of(wanted);
    if name.len() != bytes.len() {
        return false;
    }
    let mut i: usize = 0;
    while i < name.len()
        invariant
            i <= name.len(),
            name.len() == bytes.len(),
            bytes@ == text_bytes(wanted@),
            forall|k: int| 0 <= k < i ==> name[k] == bytes[k],
        decreases name.len() - i,
    {
        if name[i] != bytes[i] {
            return false;
        }
        i += 1;
    }
    assert(name@ =~= bytes@);
    true
}

/// The name of a state of the page reader.
pub open spec fn state_name(state: PageStateView) -> Seq<char> {
    match state {
        PageStateView::Limbo1 => "Limbo1"@,
        PageStateView::TitleStarted => "TitleStarted"@,
        PageStateView::Title { .. } => "Title"@,
        PageStateView::Limbo2 { .. } => "Limbo2"@,
        PageStateView::TextStarted { .. } => "TextStarted"@,
        PageStateView::Text { .. } => "Text"@,
        PageStateView::Limbo4 { .. } => "Limbo4"@,
    }
}

/// The name of a kind of event.
pub open spec fn event_name(event: XmlEventView) -> Seq<char> {
    match event {
        XmlEventView::Start(_) => "Start"@,
        XmlEventView::End(_) => "End"@,
        XmlEventView::Text(_) => "Text"@,
        XmlEventView::Eof => "Eof"@,
        XmlEventView::Other => "Other"@,
    }
}

/// What is said of an event that must not come in a state.
pub open spec fn invalid_state_message(state: PageStateView, event: XmlEventView) -> Seq<char> {
    "got into state: "@ + state_name(state) + " processing event: "@ + event_name(event)
}

impl PageState {
    /// The name of the state.
    pub fn name(&self) -> (name: &'static str)
        ensures
            name@ == state_name(self@),
    {
        match self {
            PageState::Limbo1 => "Limbo1",
            PageState::TitleStarted => "TitleStarted",
            PageState::Title { .. } => "Title",
            PageState::Limbo2 { .. } => "Limbo2",
            PageState::TextStarted { .. } => "TextStarted",
            PageState::Text { .. } => "Text",
            PageState::Limbo4 { .. } => "Limbo4",
        }
    }
}

impl XmlEvent {
    /// The name of the kind of event.
    pub fn name(&self) -> (name: &'static str)
        ensures
            name@ == event_name(self@),
    {
        match self {
            XmlEvent::Start(_) => "Start",
            XmlEvent::End(_) => "End",
            XmlEvent::Text(_) => "Text",
            XmlEvent::Eof => "Eof",
            XmlEvent::Other => "Other",
        }
    }
}

/// The error for an event that must not come in a state.
fn invalid_state(state: &PageState, event: &XmlEvent) -> (e: CeridwenError)
    ensures
        e matches CeridwenError::InvalidState(message) && message@ == invalid_state_message(
            state@,
            event@,
        ),
{
    let mut message = "got into state: ".to_string();
    message.append(state.name());
    message.append(" processing event: ");
    message.append(event.name());
    CeridwenError::InvalidState(message)
}

/// The page reader's step: what it does in a state on an event.
///
/// A page that was read gets the URL of its article; a title of which no
/// URL can be made is refused as a URL that cannot be parsed.
pub fn page_step(state: PageState, event: &XmlEvent) -> (r: Result<Step, CeridwenError>)
    ensures
        match stepped(state@, event@) {
            Stepped::Next(next) => r matches Ok(Step::Next(s)) && s@ == next,
            Stepped::Page { title, text } => match r {
                Ok(Step::Page(page)) => page@ == (PageView {
                    url: page.url@.text,
                    title,
                    content: text,
                }) && url_parse(article_base() + slug_of(title)) == Some(page.url@),
                Err(e) => e is UrlParsing && url_parse(article_base() + slug_of(title)) is None,
                _ => false,
            },
            Stepped::End => r matches Ok(Step::End),
            Stepped::Invalid => r matches Err(CeridwenError::InvalidState(message)) && message@
                == invalid_state_message(state@, event@),
            Stepped::BadText => r matches Err(e) && e is InvalidXML,
        },
{
    match state {
        PageState::Limbo1 => match event {
            XmlEvent::Eof => Ok(Step::End),
            XmlEvent::Start(name) => if is_name(name, "title") {
                Ok(Step::Next(PageState::TitleStarted))
            } else {
                Ok(Step::Next(PageState::Limbo1))
            },
            _ => Ok(Step::Next(PageState::Limbo1)),
        },
        PageState::TitleStarted => match event {
            XmlEvent::Text(raw) => match read_element_text(raw.as_slice()) {
                Ok(title) => Ok(Step::Next(PageState::Title { title })),
                Err(e) => Err(e),
            },
            _ => Err(invalid_state(&PageState::TitleStarted, event)),
        },
        PageState::Title { title } => match event {
            XmlEvent::End(name) => if is_name(name, "title") {
                Ok(Step::Next(PageState::Limbo2 { title }))
            } else {
                Err(invalid_state(&PageState::Title { title }, event))
            },
            _ => Err(invalid_state(&PageState::Title { title }, event)),
        },
        PageState::Limbo2 { title } => match event {
            XmlEvent::Eof => Err(invalid_state(&PageState::Limbo2 { title }, event)),
            XmlEvent::Start(name) => if is_name(name, "text") {
                Ok(Step::Next(PageState::TextStarted { title }))
            } else {
                Ok(Step::Next(PageState::Limbo2 { title }))
            },
            _ => Ok(Step::Next(PageState::Limbo2 { title })),
        },
        PageState::TextStarted { title } => match event {
            XmlEvent::Text(raw) => match read_element_text(raw.as_slice()) {
                Ok(text) => Ok(Step::Next(PageState::Text { title, text })),
                Err(e) => Err(e),
            },
            _ => Err(invalid_state(&PageState::TextStarted { title }, event)),
        },
        PageState::Text { title, text } => match event {
            XmlEvent::End(name) => if is_name(name, "text") {
                Ok(Step::Next(PageState::Limbo4 { title, text }))
            } else {
                Err(invalid_state(&PageState::Text { title, text }, event))
            },
            _ => Err(invalid_state(&PageState::Text { title, text }, event)),
        },
        PageState::Limbo4 { title, text } => match event {
            XmlEvent::Eof => Err(invalid_state(&PageState::Limbo4 { title, text }, event)),
            XmlEvent::End(name) => if is_name(name, "page") {
                match create_url(title.as_str()) {
                    Ok(url) => Ok(Step::Page(Page { url, title, content: text })),
                    Err(e) => Err(e),
                }
            } else {
                Ok(Step::Next(PageState::Limbo4 { title, text }))
            },
            _ => Ok(Step::Next(PageState::Limbo4 { title, text })),
        },
    }
}

/// The events of a list as values of specifications.
pub open spec fn event_views(events: Seq<XmlEvent>) -> Seq<XmlEventView> {
    events.map_values(|event: XmlEvent| event@)
}

/// What reading a page from a list of events comes to.
pub enum Reading {
    /// A page was read; `next` is the place of the event after its last.
    Page { title: Seq<char>, text: Seq<char>, next: int },
    /// There are no more pages.
    End,
    /// An event came that must not come in the state that the reader was in.
    Invalid,
    /// The text of an element cannot be read.
    BadText,
}

/// What the page reader comes to when it reads the events from the place
/// `from` on, starting in `state`. Where the events run out, the file has
/// ended.
pub open spec fn page_reading(state: PageStateView, events: Seq<XmlEventView>, from: int) -> Reading
    decreases events.len() - from,
{
    if from < 0 || from >= events.len() {
        match stepped(state, XmlEventView::Eof) {
            Stepped::End => Reading::End,
            _ => Reading::Invalid,
        }
    } else {
        match stepped(state, events[from]) {
            Stepped::Next(next) => page_reading(next, events, from + 1),
            Stepped::Page { title, text } => Reading::Page { title, text, next: from + 1 },
            Stepped::End => Reading::End,
            Stepped::Invalid => Reading::Invalid,
            Stepped::BadText => Reading::BadText,
        }
    }
}

/// Reads the next page from a list of events: the page and the place of the
/// event after its last, or nothing where the events hold no more page.
pub fn read_page(events: &Vec<XmlEvent>, from: usize) -> (r: Result<
    Option<(Page, usize)>,
    CeridwenError,
>)
    ensures
        match page_reading(PageStateView::Limbo1, event_views(events@), from as int) {
            Reading::Page { title, text, next } => match r {
                Ok(Some((page, after))) => after == next && page@ == (PageView {
                    url: page.url@.text,
                    title,
                    content: text,
                }) && url_parse(article_base() + slug_of(title)) == Some(page.url@),
                Err(e) => e is UrlParsing && url_parse(article_base() + slug_of(title)) is None,
                _ => false,
            },
            Reading::End => r matches Ok(None),
            Reading::Invalid => r matches Err(e) && e is InvalidState,
            Reading::BadText => r matches Err(e) && e is InvalidXML,
        },
{
    let ghost all = event_views(events@);
    let mut state = PageState::Limbo1;
    let mut i: usize = from;
    while i < events.len()
        invariant
            from <= i,
            all == event_views(events@),
            page_reading(PageStateView::Limbo1, all, from as int) == page_reading(
                state@,
                all,
                i as int,
            ),
        decreases events.len() - i,
    {
        assert(all[i as int] == events[i as int]@);
        match page_step(state, &events[i]) {
            Ok(Step::Next(next)) => {
                state = next;
            },
            Ok(Step::Page(page)) => {
                return Ok(Some((page, i + 1)));
            },
            Ok(Step::End) => {
                return Ok(None);
            },
            Err(e) => {
                return Err(e);
            },
        }
        i += 1;
    }
    match page_step(state, &XmlEvent::Eof) {
        Ok(Step::End) => Ok(None),
        Ok(_) => Ok(None),
        Err(e) => Err(e),
    }
}

/// Where the dump of the English Wikipedia is found.
pub const WIKIPEDIA_DUMP_URL: &'static str =
    "https://dumps.wikimedia.org/enwiki/latest/enwiki-latest-pages-articles-multistream.xml.bz2";

/// Where the feed is found that says when the dump was made.
pub const WIKIPEDIA_DUMP_RSS: &'static str =
    "https://dumps.wikimedia.org/enwiki/latest/enwiki-latest-pages-articles-multistream.xml.bz2-rss.xml";

/// When the dump was made, as its feed says: the date of the first item of
/// the feed.
pub fn dump_date(items: &Vec<FeedItem>) -> (r: Result<Timestamp, CeridwenError>)
    ensures
        if items.len() > 0 && items[0]@.pub_date is Some {
            match r {
                Ok(at) => rfc2822_instant(items[0]@.pub_date->0) == Some(at.unix_nanos),
                Err(e) => rfc2822_instant(items[0]@.pub_date->0) is None && e is TimeParsing,
            }
        } else {
            r matches Err(e) && e is WikipediaMissingDate
        },
{
    if items.len() == 0 {
        return Err(CeridwenError::WikipediaMissingDate);
    }
    match &items[0].pub_date {
        Some(date) => Timestamp::parse_rfc2822(date.as_str()),
        None => Err(CeridwenError::WikipediaMissingDate),
    }
}

/// Whether a dump is to be read: it was made after the ingester last ran.
pub fn is_new_dump(dump_date: Timestamp, last_update: Timestamp) -> (new: bool)
    ensures
        new == (dump_date.unix_nanos > last_update.unix_nanos),
{
    dump_date.is_after(last_update)
}

/// How the instant of a dump is written in the name of its file.
pub open spec fn dump_stamp_pattern() -> Seq<char> {
    "[year]_[month]_[day]_[hour]_[minute]_[second]"@
}

/// The name of the file that the dump of an instant is kept in:
/// `enwiki-latest-`, the instant, and `.xml.bz2`.
pub fn dump_file_name(dump_date: Timestamp) -> (r: Result<String, CeridwenError>)
    ensures
        match r {
            Ok(name) => formatted_instant(dump_date.unix_nanos, dump_stamp_pattern()) matches Some(
                stamp,
            ) && name@ == "enwiki-latest-"@ + stamp + ".xml.bz2"@,
            Err(e) => formatted_instant(dump_date.unix_nanos, dump_stamp_pattern()) is None
                && e is TimeFormatting,
        },
{
    let stamp = match dump_date.format("[year]_[month]_[day]_[hour]_[minute]_[second]") {
        Ok(stamp) => stamp,
        Err(e) => {
            return Err(e);
        },
    };
    let mut name = "enwiki-latest-".to_string();
    name.append(stamp.as_str());
    name.append(".xml.bz2");
    Ok(name)
}

} // verus!
