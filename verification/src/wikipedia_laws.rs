//! What holds of the markup scanners on every text.

use vstd::prelude::*;
use crate::wikipedia::Delimiters;
use crate::wikipedia::extend_innermost;
use crate::wikipedia::inside_link_step;
use crate::wikipedia::link_result;
use crate::wikipedia::link_scan;
use crate::wikipedia::link_start;
use crate::wikipedia::link_step;
use crate::wikipedia::links_replaced;
use crate::wikipedia::LinkScan;
use crate::wikipedia::Phase;
use crate::wikipedia::region_result;
use crate::wikipedia::region_scan;
use crate::wikipedia::region_start;
use crate::wikipedia::region_step;
use crate::wikipedia::RegionScan;
use crate::wikipedia::without_regions;

verus! {

/// Whether a text holds the character `c` nowhere.
pub open spec fn lacks(text: Seq<char>, c: char) -> bool {
    forall|i: int| 0 <= i < text.len() ==> #[trigger] text[i] != c
}

/// Reading two texts one after the other is reading the one that they make
/// together.
pub proof fn region_scan_of_both(s: RegionScan, a: Seq<char>, b: Seq<char>, d: Delimiters)
    ensures
        region_scan(s, a + b, d) == region_scan(region_scan(s, a, d), b, d),
    decreases b.len(),
{
    if b.len() == 0 {
        assert(a + b == a);
    } else {
        region_scan_of_both(s, a, b.drop_last(), d);
        assert((a + b).drop_last() == a + b.drop_last());
        assert((a + b).last() == b.last());
    }
}

/// Reading one character is one step.
pub proof fn region_scan_of_one(s: RegionScan, c: char, d: Delimiters)
    ensures
        region_scan(s, seq![c], d) == region_step(s, c, d),
{
    let text = seq![c];
    assert(text.drop_last().len() == 0);
    assert(region_scan(s, text.drop_last(), d) == s);
    assert(text.last() == c);
}

/// Reading two characters is two steps.
pub proof fn region_scan_of_two(s: RegionScan, a: char, b: char, d: Delimiters)
    ensures
        region_scan(s, seq![a, b], d) == region_step(region_step(s, a, d), b, d),
{
    region_scan_of_one(s, a, d);
    region_scan_of_one(region_step(s, a, d), b, d);
    region_scan_of_both(s, seq![a], seq![b], d);
    assert(seq![a] + seq![b] == seq![a, b]);
}

/// Outside a region, a text without the first opening character is kept as
/// it is.
pub proof fn region_scan_keeps_plain_text(s: RegionScan, text: Seq<char>, d: Delimiters)
    requires
        s.phase == Phase::Outside,
        s.depth == 0,
        lacks(text, d.start1),
    ensures
        region_scan(s, text, d) == (RegionScan { kept: s.kept + text, ..s }),
    decreases text.len(),
{
    if text.len() == 0 {
        assert(s.kept + text == s.kept);
    } else {
        assert forall|i: int| 0 <= i < text.drop_last().len() implies #[trigger] text.drop_last()[i]
            != d.start1 by {
            assert(text.drop_last()[i] == text[i]);
        }
        region_scan_keeps_plain_text(s, text.drop_last(), d);
        assert(text[text.len() - 1] != d.start1);
        assert((s.kept + text.drop_last()).push(text.last()) == s.kept + text);
    }
}

/// A text without the first opening character has no regions: it is given
/// back as it is.
pub proof fn plain_text_has_no_regions(text: Seq<char>, d: Delimiters)
    requires
        lacks(text, d.start1),
    ensures
        without_regions(text, d) == text,
{
    region_scan_keeps_plain_text(region_start(), text, d);
    assert(Seq::<char>::empty() + text == text);
}

/// In a region, a text that holds neither the first opening nor the first
/// closing character is passed over.
pub proof fn region_scan_passes_over_inner_text(s: RegionScan, text: Seq<char>, d: Delimiters)
    requires
        s.phase == Phase::Inside,
        lacks(text, d.start1),
        lacks(text, d.end1),
    ensures
        region_scan(s, text, d) == s,
    decreases text.len(),
{
    if text.len() > 0 {
        assert forall|i: int| 0 <= i < text.drop_last().len() implies #[trigger] text.drop_last()[i]
            != d.start1 && text.drop_last()[i] != d.end1 by {
            assert(text.drop_last()[i] == text[i]);
        }
        region_scan_passes_over_inner_text(s, text.drop_last(), d);
        assert(text[text.len() - 1] != d.start1);
        assert(text[text.len() - 1] != d.end1);
    }
}

/// A region as a text: the opening pair, what is in the region, and the
/// closing pair.
pub open spec fn region_text(inner: Seq<char>, d: Delimiters) -> Seq<char> {
    seq![d.start1, d.start2] + inner + seq![d.end1, d.end2]
}

/// Whether the scanner is between two characters that belong together:
/// outside all regions, or in one.
pub open spec fn is_at_rest(s: RegionScan) -> bool {
    (s.phase == Phase::Outside && s.depth == 0) || (s.phase == Phase::Inside && s.depth >= 1)
}

/// A region is removed whole: reading a region whose inner text holds
/// neither the first opening nor the first closing character leaves the
/// scanner where it was, outside all regions as well as in one. So a region
/// in a region is removed with the one around it. The first opening
/// character has to differ from the first closing one.
pub proof fn region_is_removed(s: RegionScan, inner: Seq<char>, d: Delimiters)
    requires
        d.start1 != d.end1,
        is_at_rest(s),
        lacks(inner, d.start1),
        lacks(inner, d.end1),
    ensures
        region_scan(s, region_text(inner, d), d) == s,
{
    let open = seq![d.start1, d.start2];
    let close = seq![d.end1, d.end2];
    let opened = RegionScan { phase: Phase::Inside, depth: s.depth + 1, kept: s.kept };
    region_scan_of_two(s, d.start1, d.start2, d);
    assert(region_scan(s, open, d) == opened);
    region_scan_passes_over_inner_text(opened, inner, d);
    region_scan_of_two(opened, d.end1, d.end2, d);
    assert(region_scan(opened, close, d) == s);
    region_scan_of_both(s, open, inner, d);
    region_scan_of_both(s, open + inner, close, d);
}

/// Whether a text holds the character `a` nowhere with `b` right after it.
pub open spec fn lacks_pair(text: Seq<char>, a: char, b: char) -> bool {
    forall|i: int| 0 <= i < text.len() - 1 ==> !(#[trigger] text[i] == a && text[i + 1] == b)
}

/// A region goes on until its closing pair: in a region, a text that holds
/// neither the opening nor the closing pair leaves the scanner in that
/// region, with nothing kept of the text. A single opening or closing
/// character in the text changes nothing of that.
pub proof fn region_goes_on(s: RegionScan, text: Seq<char>, d: Delimiters)
    requires
        s.phase == Phase::Inside,
        s.depth >= 1,
        lacks_pair(text, d.start1, d.start2),
        lacks_pair(text, d.end1, d.end2),
    ensures
        region_scan(s, text, d).depth == s.depth,
        region_scan(s, text, d).kept == s.kept,
        region_scan(s, text, d).phase != Phase::Outside,
        region_scan(s, text, d).phase == Phase::Starting ==> text.len() > 0 && text.last()
            == d.start1,
        region_scan(s, text, d).phase == Phase::Ending ==> text.len() > 0 && text.last() == d.end1,
    decreases text.len(),
{
    if text.len() > 0 {
        let shorter = text.drop_last();
        assert forall|i: int| 0 <= i < shorter.len() - 1 implies !(#[trigger] shorter[i] == d.start1
            && shorter[i + 1] == d.start2) && !(shorter[i] == d.end1 && shorter[i + 1] == d.end2) by {
            assert(shorter[i] == text[i]);
            assert(shorter[i + 1] == text[i + 1]);
        }
        region_goes_on(s, shorter, d);
        let before = region_scan(s, shorter, d);
        if before.phase != Phase::Inside {
            let i = text.len() - 2;
            assert(shorter.last() == text[i]);
            assert(text.last() == text[i + 1]);
        }
    }
}

/// A region is removed whole, whatever single opening and closing characters
/// it holds: reading the opening pair, an inner text and the closing pair
/// leaves the scanner where it was, where the inner text, with the first
/// closing character after it, holds neither the opening nor the closing
/// pair. The first opening character has to differ from the first closing
/// one.
pub proof fn region_with_single_marks_is_removed(s: RegionScan, inner: Seq<char>, d: Delimiters)
    requires
        d.start1 != d.end1,
        is_at_rest(s),
        lacks_pair(inner.push(d.end1), d.start1, d.start2),
        lacks_pair(inner.push(d.end1), d.end1, d.end2),
    ensures
        region_scan(s, region_text(inner, d), d) == s,
{
    let open = seq![d.start1, d.start2];
    let opened = RegionScan { phase: Phase::Inside, depth: s.depth + 1, kept: s.kept };
    region_scan_of_two(s, d.start1, d.start2, d);
    assert(region_scan(s, open, d) == opened);
    let body = inner.push(d.end1);
    region_goes_on(opened, body, d);
    let ending = region_scan(opened, body, d);
    assert(ending.phase == Phase::Ending) by {
        let shorter = body.drop_last();
        assert(shorter == inner);
        assert forall|i: int| 0 <= i < shorter.len() - 1 implies !(#[trigger] shorter[i] == d.start1
            && shorter[i + 1] == d.start2) && !(shorter[i] == d.end1 && shorter[i + 1] == d.end2) by {
            assert(shorter[i] == body[i]);
            assert(shorter[i + 1] == body[i + 1]);
        }
        region_goes_on(opened, shorter, d);
        let before = region_scan(opened, shorter, d);
        if before.phase != Phase::Inside {
            let i = body.len() - 2;
            assert(shorter.last() == body[i]);
            assert(body.last() == body[i + 1]);
        }
    }
    region_scan_of_one(ending, d.end2, d);
    assert(region_scan(ending, seq![d.end2], d) == s);
    region_scan_of_both(s, open, body, d);
    region_scan_of_both(s, open + body, seq![d.end2], d);
    assert(open + body + seq![d.end2] == region_text(inner, d));
}

/// A text with one region in it, before which no first opening character
/// comes, is the text before the region and what is left of the text after
/// it.
pub proof fn text_without_its_region(
    before: Seq<char>,
    inner: Seq<char>,
    after: Seq<char>,
    d: Delimiters,
)
    requires
        d.start1 != d.end1,
        lacks(before, d.start1),
        lacks(inner, d.start1),
        lacks(inner, d.end1),
    ensures
        without_regions(before + region_text(inner, d) + after, d) == before + without_regions(
            after,
            d,
        ),
{
    let start = region_start();
    let outside = RegionScan { kept: before, ..start };
    region_scan_keeps_plain_text(start, before, d);
    assert(Seq::<char>::empty() + before == before);
    region_is_removed(outside, inner, d);
    region_scan_of_both(start, before, region_text(inner, d), d);
    region_scan_of_both(start, before + region_text(inner, d), after, d);
    region_scan_after_kept(before, after, d);
}

/// What was kept before a text is read stays before what is kept of the
/// text.
pub proof fn region_scan_after_kept(kept: Seq<char>, text: Seq<char>, d: Delimiters)
    ensures
        region_scan(RegionScan { kept, ..region_start() }, text, d) == (RegionScan {
            kept: kept + region_scan(region_start(), text, d).kept,
            ..region_scan(region_start(), text, d)
        }),
    decreases text.len(),
{
    let from_kept = RegionScan { kept, ..region_start() };
    if text.len() == 0 {
        assert(kept + Seq::<char>::empty() == kept);
    } else {
        region_scan_after_kept(kept, text.drop_last(), d);
        let a = region_scan(from_kept, text.drop_last(), d);
        let b = region_scan(region_start(), text.drop_last(), d);
        let c = text.last();
        assert(region_step(a, c, d).kept == kept + region_step(b, c, d).kept) by {
            assert((kept + b.kept).push(c) == kept + b.kept.push(c));
            assert((kept + b.kept).push(d.start1).push(c) == kept + b.kept.push(d.start1).push(c));
        }
    }
}

/// Reading two texts one after the other is reading the one that they make
/// together.
pub proof fn link_scan_of_both(s: LinkScan, a: Seq<char>, b: Seq<char>)
    ensures
        link_scan(s, a + b) == link_scan(link_scan(s, a), b),
    decreases b.len(),
{
    if b.len() == 0 {
        assert(a + b == a);
    } else {
        link_scan_of_both(s, a, b.drop_last());
        assert((a + b).drop_last() == a + b.drop_last());
        assert((a + b).last() == b.last());
    }
}

/// Reading one character is one step.
pub proof fn link_scan_of_one(s: LinkScan, c: char)
    ensures
        link_scan(s, seq![c]) == link_step(s, c),
{
    let text = seq![c];
    assert(text.drop_last().len() == 0);
    assert(link_scan(s, text.drop_last()) == s);
    assert(text.last() == c);
}

/// Reading two characters is two steps.
pub proof fn link_scan_of_two(s: LinkScan, a: char, b: char)
    ensures
        link_scan(s, seq![a, b]) == link_step(link_step(s, a), b),
{
    link_scan_of_one(s, a);
    link_scan_of_one(link_step(s, a), b);
    link_scan_of_both(s, seq![a], seq![b]);
    assert(seq![a] + seq![b] == seq![a, b]);
}

/// Outside a link, a text without `[` is kept as it is.
pub proof fn link_scan_keeps_plain_text(s: LinkScan, text: Seq<char>)
    requires
        s.phase == Phase::Outside,
        lacks(text, '['),
    ensures
        link_scan(s, text) == (LinkScan { kept: s.kept + text, ..s }),
    decreases text.len(),
{
    if text.len() == 0 {
        assert(s.kept + text == s.kept);
    } else {
        assert forall|i: int| 0 <= i < text.drop_last().len() implies #[trigger] text.drop_last()[i]
            != '[' by {
            assert(text.drop_last()[i] == text[i]);
        }
        link_scan_keeps_plain_text(s, text.drop_last());
        assert(text[text.len() - 1] != '[');
        assert((s.kept + text.drop_last()).push(text.last()) == s.kept + text);
    }
}

/// A text without `[` has no links: it is given back as it is.
pub proof fn plain_text_has_no_links(text: Seq<char>)
    requires
        lacks(text, '['),
    ensures
        links_replaced(text) == text,
{
    link_scan_keeps_plain_text(link_start(), text);
    assert(Seq::<char>::empty() + text == text);
}

/// Whether a text holds none of the characters that the link scanner looks
/// for: `[`, `]` and `|`.
pub open spec fn is_link_text(text: Seq<char>) -> bool {
    lacks(text, '[') && lacks(text, ']') && lacks(text, '|')
}

/// In a link, a text without brackets and bars is collected as the text of
/// the link.
pub proof fn link_scan_collects(s: LinkScan, text: Seq<char>)
    requires
        s.phase == Phase::Inside,
        s.open.len() >= 1,
        is_link_text(text),
    ensures
        link_scan(s, text) == (LinkScan { open: extend_innermost(s.open, text), ..s }),
    decreases text.len(),
{
    if text.len() == 0 {
        assert(s.open.last() + text == s.open.last());
        assert(extend_innermost(s.open, text) == s.open);
    } else {
        let shorter = text.drop_last();
        assert forall|i: int| 0 <= i < shorter.len() implies #[trigger] shorter[i] != '['
            && shorter[i] != ']' && shorter[i] != '|' by {
            assert(shorter[i] == text[i]);
        }
        link_scan_collects(s, shorter);
        let c = text[text.len() - 1];
        assert(c != '[' && c != ']' && c != '|');
        let before = extend_innermost(s.open, shorter);
        assert(before.last() + seq![c] == s.open.last() + text) by {
            assert(shorter + seq![c] == text);
        }
        assert(extend_innermost(before, seq![c]) == extend_innermost(s.open, text));
    }
}

/// Whether the scanner is between two characters that belong together:
/// outside all links, or in one.
pub open spec fn is_between_links(s: LinkScan) -> bool {
    (s.phase == Phase::Outside && s.open.len() == 0) || (s.phase == Phase::Inside && s.open.len()
        >= 1)
}

/// The scanner after it was handed a text where it stands: outside all
/// links the text is kept, in a link it is added to the text of the link.
pub open spec fn with_text(s: LinkScan, text: Seq<char>) -> LinkScan {
    if s.phase == Phase::Outside {
        LinkScan { kept: s.kept + text, ..s }
    } else {
        LinkScan { open: extend_innermost(s.open, text), ..s }
    }
}

/// A link without a bar stands for its text: reading `[[`, a text without
/// brackets and bars, and `]]` is as good as being handed the text.
pub proof fn link_stands_for_its_text(s: LinkScan, text: Seq<char>)
    requires
        is_between_links(s),
        is_link_text(text),
    ensures
        link_scan(s, seq!['[', '['] + text + seq![']', ']']) == with_text(s, text),
{
    let none = Seq::<char>::empty();
    let opened = LinkScan { phase: Phase::Inside, open: s.open.push(none), kept: s.kept };
    link_scan_of_two(s, '[', '[');
    assert(link_scan(s, seq!['[', '[']) == opened);
    link_scan_collects(opened, text);
    let filled = LinkScan { open: s.open.push(text), ..opened };
    assert(extend_innermost(opened.open, text) == s.open.push(text)) by {
        assert(opened.open.drop_last() == s.open);
        assert(none + text == text);
    }
    link_scan_of_two(filled, ']', ']');
    assert(filled.open.drop_last() == s.open);
    assert(filled.open.last() == text);
    let closed = link_scan(filled, seq![']', ']']);
    assert(closed.phase == with_text(s, text).phase);
    assert(closed.kept == with_text(s, text).kept);
    assert(closed.open == with_text(s, text).open);
    link_scan_of_both(s, seq!['[', '['], text);
    link_scan_of_both(s, seq!['[', '['] + text, seq![']', ']']);
}

/// A link with a bar stands for what follows the bar: reading `[[`, a
/// target, `|`, a text and `]]`, where neither the target nor the text holds
/// brackets or bars, is as good as being handed the text.
pub proof fn link_with_bar_stands_for_its_display(s: LinkScan, target: Seq<char>, text: Seq<char>)
    requires
        is_between_links(s),
        is_link_text(target),
        is_link_text(text),
    ensures
        link_scan(s, seq!['[', '['] + target + seq!['|'] + text + seq![']', ']']) == with_text(
            s,
            text,
        ),
{
    let none = Seq::<char>::empty();
    let opened = LinkScan { phase: Phase::Inside, open: s.open.push(none), kept: s.kept };
    link_scan_of_two(s, '[', '[');
    assert(link_scan(s, seq!['[', '[']) == opened);
    link_scan_collects(opened, target);
    let aimed = LinkScan { open: s.open.push(target), ..opened };
    assert(extend_innermost(opened.open, target) == s.open.push(target)) by {
        assert(opened.open.drop_last() == s.open);
        assert(none + target == target);
    }
    link_scan_of_one(aimed, '|');
    assert(aimed.open.drop_last() == s.open);
    assert(link_scan(aimed, seq!['|']) == opened);
    link_scan_collects(opened, text);
    let filled = LinkScan { open: s.open.push(text), ..opened };
    assert(extend_innermost(opened.open, text) == s.open.push(text)) by {
        assert(none + text == text);
    }
    link_scan_of_two(filled, ']', ']');
    assert(filled.open.drop_last() == s.open);
    assert(filled.open.last() == text);
    let closed = link_scan(filled, seq![']', ']']);
    assert(closed.phase == with_text(s, text).phase);
    assert(closed.kept == with_text(s, text).kept);
    assert(closed.open == with_text(s, text).open);
    let a = seq!['[', '['];
    link_scan_of_both(s, a, target);
    link_scan_of_both(s, a + target, seq!['|']);
    link_scan_of_both(s, a + target + seq!['|'], text);
    link_scan_of_both(s, a + target + seq!['|'] + text, seq![']', ']']);
}

/// A link goes on until its closing pair: in a link, a text without bars
/// and without the pairs `[[` and `]]` is collected as text of the link,
/// single brackets and all. A bracket that ends the text is held back until
/// the next character shows whether it is one of a pair.
pub proof fn link_goes_on(s: LinkScan, text: Seq<char>)
    requires
        s.phase == Phase::Inside,
        s.open.len() >= 1,
        lacks(text, '|'),
        lacks_pair(text, '[', '['),
        lacks_pair(text, ']', ']'),
    ensures
        link_scan(s, text).kept == s.kept,
        link_scan(s, text).open.len() == s.open.len(),
        link_scan(s, text).open.drop_last() == s.open.drop_last(),
        link_scan(s, text).phase != Phase::Outside,
        link_scan(s, text).phase == Phase::Inside ==> link_scan(s, text).open.last()
            == s.open.last() + text,
        link_scan(s, text).phase != Phase::Inside ==> text.len() > 0 && link_scan(
            s,
            text,
        ).open.last() == s.open.last() + text.drop_last(),
        link_scan(s, text).phase == Phase::Starting <==> text.len() > 0 && text.last() == '[',
        link_scan(s, text).phase == Phase::Ending <==> text.len() > 0 && text.last() == ']',
    decreases text.len(),
{
    if text.len() == 0 {
        assert(s.open.last() + text == s.open.last());
    } else {
        let shorter = text.drop_last();
        let c = text.last();
        assert forall|i: int| 0 <= i < shorter.len() implies #[trigger] shorter[i] != '|' by {
            assert(shorter[i] == text[i]);
        }
        assert forall|i: int| 0 <= i < shorter.len() - 1 implies !(#[trigger] shorter[i] == '['
            && shorter[i + 1] == '[') && !(shorter[i] == ']' && shorter[i + 1] == ']') by {
            assert(shorter[i] == text[i]);
            assert(shorter[i + 1] == text[i + 1]);
        }
        link_goes_on(s, shorter);
        let before = link_scan(s, shorter);
        assert(c == text[text.len() - 1]);
        assert(c != '|');
        // What the innermost link holds once a bracket that was held back is
        // taken for text.
        let settled = if before.phase == Phase::Inside {
            before.open
        } else {
            extend_innermost(before.open, seq![shorter.last()])
        };
        if before.phase != Phase::Inside {
            let i = text.len() - 2;
            assert(shorter.last() == text[i]);
            assert(c == text[i + 1]);
            assert(shorter.drop_last().push(shorter.last()) == shorter);
            assert(s.open.last() + shorter.drop_last() + seq![shorter.last()] == s.open.last()
                + shorter);
        }
        assert(settled.last() == s.open.last() + shorter);
        assert(settled.drop_last() == s.open.drop_last());
        assert(link_step(before, c) == inside_link_step(settled, before.kept, c));
        if c != '[' && c != ']' {
            assert(shorter.push(c) == text);
            assert(s.open.last() + shorter + seq![c] == s.open.last() + text);
            assert(extend_innermost(settled, seq![c]).drop_last() == s.open.drop_last());
        }
    }
}

/// A link with single brackets in it stands for its text: reading `[[`, a
/// text and `]]` is as good as being handed the text, where the text holds
/// no bar and no pair `[[`, and, with a `]` after it, no pair `]]`.
pub proof fn link_with_single_brackets_stands_for_its_text(s: LinkScan, text: Seq<char>)
    requires
        is_between_links(s),
        lacks(text, '|'),
        lacks_pair(text, '[', '['),
        lacks_pair(text.push(']'), ']', ']'),
    ensures
        link_scan(s, seq!['[', '['] + text + seq![']', ']']) == with_text(s, text),
{
    let none = Seq::<char>::empty();
    let opened = LinkScan { phase: Phase::Inside, open: s.open.push(none), kept: s.kept };
    link_scan_of_two(s, '[', '[');
    assert(link_scan(s, seq!['[', '[']) == opened);
    let body = text.push(']');
    assert forall|i: int| 0 <= i < body.len() implies #[trigger] body[i] != '|' by {
        if i < text.len() {
            assert(body[i] == text[i]);
        }
    }
    assert forall|i: int| 0 <= i < body.len() - 1 implies !(#[trigger] body[i] == '[' && body[i
        + 1] == '[') by {
        if i + 1 < text.len() {
            assert(body[i] == text[i]);
            assert(body[i + 1] == text[i + 1]);
        }
    }
    link_goes_on(opened, body);
    let ending = link_scan(opened, body);
    assert(body.last() == ']');
    assert(body.drop_last() == text);
    assert(opened.open.drop_last() == s.open);
    assert(none + text == text);
    assert(ending.open.last() == text);
    assert(ending.open.drop_last() == s.open);
    link_scan_of_one(ending, ']');
    let closed = link_step(ending, ']');
    assert(closed.phase == with_text(s, text).phase);
    assert(closed.kept == with_text(s, text).kept);
    assert(closed.open == with_text(s, text).open);
    link_scan_of_both(s, seq!['[', '['], body);
    link_scan_of_both(s, seq!['[', '['] + body, seq![']']);
    assert(seq!['[', '['] + body + seq![']'] == seq!['[', '['] + text + seq![']', ']']);
}

} // verus!
