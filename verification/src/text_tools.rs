//! Text pipeline: tokenise a document, drop stop words, count term frequencies.

use vstd::prelude::*;
use crate::strings::ascii_lower;
use crate::strings::char_is_whitespace;
use crate::strings::each_char;
use crate::strings::trimmed_keeps;
use crate::strings::is_white_space;
use crate::strings::push_char;
use crate::strings::str_eq;
use crate::strings::trim;
use crate::strings::trimmed;

verus! {

/// The lowercase form that `str::to_lowercase` gives to a string that holds
/// a character from U+0080 on.
pub uninterp spec fn unicode_lowercase(s: Seq<char>) -> Seq<char>;

/// Whether every character of a string is below U+0080.
pub open spec fn is_ascii_text(s: Seq<char>) -> bool {
    forall|i: int| 0 <= i < s.len() ==> #[trigger] s[i] <= '\x7f'
}

/// A string with a small letter for each of its letters from `A` to `Z`.
pub open spec fn ascii_lowercase(s: Seq<char>) -> Seq<char> {
    s.map_values(|c: char| ascii_lower(c))
}

/// The lowercase form of a string as `str::to_lowercase` gives it, which
/// goes by Unicode's lowercase mapping: in a string of characters below
/// U+0080 the letters from `A` to `Z` become small and nothing else
/// changes.
pub open spec fn lowercase_of(s: Seq<char>) -> Seq<char> {
    if is_ascii_text(s) {
        ascii_lowercase(s)
    } else {
        unicode_lowercase(s)
    }
}

/// Whether `char::is_alphanumeric` holds of a character from U+0080 on.
pub uninterp spec fn unicode_alphanumeric(c: char) -> bool;

/// Whether a character is a letter or a digit as `char::is_alphanumeric`
/// sees it, which goes by Unicode's Alphabetic property and its number
/// categories: below U+0080 the letters from `a` to `z` and from `A` to `Z`
/// and the digits from `0` to `9`, from there on what Unicode marks.
pub open spec fn is_alphanumeric(c: char) -> bool {
    if c <= '\x7f' {
        ('a' <= c && c <= 'z') || ('A' <= c && c <= 'Z') || ('0' <= c && c <= '9')
    } else {
        unicode_alphanumeric(c)
    }
}

/// Calls `str::to_lowercase`, which gives the lowercase form of a string by
/// Unicode's mapping. Of a string of characters below U+0080 that is the
/// string with its letters from `A` to `Z` made small; for the others the
/// result is named.
#[verifier::external_body]
pub(crate) fn to_lowercase(s: &str) -> (r: String)
    ensures
        is_ascii_text(s@) ==> r@ == ascii_lowercase(s@),
        !is_ascii_text(s@) ==> r@ == unicode_lowercase(s@),
{
    s.to_lowercase()
}

/// Calls `char::is_alphanumeric`, which holds of the characters that Unicode
/// marks as alphabetic or as numbers. Below U+0080 these are the letters
/// from `a` to `z` and from `A` to `Z` and the digits; for the others the
/// result is named.
#[verifier::external_body]
pub(crate) fn char_is_alphanumeric(c: char) -> (b: bool)
    ensures
        c <= '\x7f' ==> b == (('a' <= c && c <= 'z') || ('A' <= c && c <= 'Z') || ('0' <= c && c
            <= '9')),
        c > '\x7f' ==> b == unicode_alphanumeric(c),
{
    c.is_alphanumeric()
}

/// The punctuation that is removed from every token.
pub open spec fn is_punctuation(c: char) -> bool {
    c == '(' || c == ')' || c == ',' || c == '"' || c == '.' || c == ';' || c == ':' || c == '\''
        || c == '?' || c == '<' || c == '>' || c == '\\' || c == '/' || c == '*' || c == '{'
        || c == '}' || c == '|' || c == '#' || c == '=' || c == 'ʿ' || c == '!'
}

/// Whether a character survives in a token.
pub open spec fn is_term_char(c: char) -> bool {
    is_alphanumeric(c) && !is_punctuation(c)
}

/// One white-space separated word turned into a token: lowercased, trimmed,
/// and reduced to its term characters.
pub open spec fn clean_word(word: Seq<char>) -> Seq<char> {
    trimmed(lowercase_of(word)).filter(|c: char| is_term_char(c))
}

/// The words of `rest`, where `current` holds the characters of a word that
/// has begun before `rest`.
pub open spec fn split_from(current: Seq<char>, rest: Seq<char>) -> Seq<Seq<char>>
    decreases rest.len(),
{
    if rest.len() == 0 {
        finished(current)
    } else if is_white_space(rest.first()) {
        finished(current) + split_from(Seq::empty(), rest.drop_first())
    } else {
        split_from(current.push(rest.first()), rest.drop_first())
    }
}

/// The word that ends where white space or the end of the text follows
/// `current`: none if nothing was collected.
pub open spec fn finished(current: Seq<char>) -> Seq<Seq<char>> {
    if current.len() == 0 {
        Seq::empty()
    } else {
        seq![current]
    }
}

/// The maximal runs of characters that are not white space, in order.
pub open spec fn split_whitespace(text: Seq<char>) -> Seq<Seq<char>> {
    split_from(Seq::empty(), text)
}

/// The tokens of a text: each white-space separated word, cleaned. A word
/// without term characters gives an empty token.
pub open spec fn tokens_of(text: Seq<char>) -> Seq<Seq<char>> {
    split_whitespace(text).map_values(|w: Seq<char>| clean_word(w))
}

/// The English function words that are never indexed.
pub open spec fn is_stop_word(w: Seq<char>) -> bool {
    ||| w == "what"@
    ||| w == "which"@
    ||| w == "who"@
    ||| w == "whom"@
    ||| w == "this"@
    ||| w == "that"@
    ||| w == "these"@
    ||| w == "those"@
    ||| w == "am"@
    ||| w == "is"@
    ||| w == "are"@
    ||| w == "was"@
    ||| w == "were"@
    ||| w == "be"@
    ||| w == "been"@
    ||| w == "being"@
    ||| w == "have"@
    ||| w == "has"@
    ||| w == "had"@
    ||| w == "having"@
    ||| w == "do"@
    ||| w == "does"@
    ||| w == "did"@
    ||| w == "doing"@
    ||| w == "a"@
    ||| w == "an"@
    ||| w == "the"@
    ||| w == "and"@
    ||| w == "but"@
    ||| w == "if"@
    ||| w == "or"@
    ||| w == "because"@
    ||| w == "as"@
    ||| w == "until"@
    ||| w == "while"@
    ||| w == "of"@
    ||| w == "at"@
    ||| w == "by"@
    ||| w == "for"@
    ||| w == "with"@
    ||| w == "about"@
    ||| w == "against"@
    ||| w == "between"@
    ||| w == "into"@
    ||| w == "through"@
    ||| w == "during"@
    ||| w == "before"@
    ||| w == "after"@
    ||| w == "above"@
    ||| w == "below"@
    ||| w == "to"@
    ||| w == "from"@
    ||| w == "up"@
    ||| w == "down"@
    ||| w == "in"@
    ||| w == "out"@
    ||| w == "on"@
    ||| w == "off"@
    ||| w == "over"@
    ||| w == "under"@
    ||| w == "again"@
    ||| w == "further"@
    ||| w == "then"@
    ||| w == "once"@
    ||| w == "here"@
    ||| w == "there"@
    ||| w == "when"@
    ||| w == "where"@
    ||| w == "why"@
    ||| w == "how"@
    ||| w == "all"@
    ||| w == "any"@
    ||| w == "both"@
    ||| w == "each"@
    ||| w == "few"@
    ||| w == "more"@
    ||| w == "most"@
    ||| w == "other"@
    ||| w == "some"@
    ||| w == "such"@
    ||| w == "only"@
    ||| w == "own"@
    ||| w == "same"@
    ||| w == "so"@
    ||| w == "than"@
    ||| w == "too"@
    ||| w == "very"@
    ||| w == "s"@
    ||| w == "t"@
    ||| w == "can"@
    ||| w == "will"@
    ||| w == "just"@
    ||| w == "should"@
}

/// Whether a term is kept by `filter`: it is not empty and not a stop word.
pub open spec fn is_indexed_term(w: Seq<char>) -> bool {
    w.len() > 0 && !is_stop_word(w)
}

/// How often `w` occurs in `words`.
pub open spec fn occurrences(words: Seq<Seq<char>>, w: Seq<char>) -> nat
    decreases words.len(),
{
    if words.len() == 0 {
        0
    } else {
        occurrences(words.drop_last(), w) + if words.last() == w {
            1nat
        } else {
            0nat
        }
    }
}

fn punctuation(c: char) -> (b: bool)
    ensures
        b == is_punctuation(c),
{
    c == '(' || c == ')' || c == ',' || c == '"' || c == '.' || c == ';' || c == ':' || c == '\''
        || c == '?' || c == '<' || c == '>' || c == '\\' || c == '/' || c == '*' || c == '{'
        || c == '}' || c == '|' || c == '#' || c == '=' || c == 'ʿ' || c == '!'
}

fn clean(word: &str) -> (token: String)
    ensures
        token@ == clean_word(word@),
{
    broadcast use vstd::string::group_string_axioms;

    let lower = to_lowercase(word);
    let body = trim(lower.as_str());
    let ghost keep = |c: char| is_term_char(c);
    let mut token = String::new();
    for c in it: body.chars()
        invariant
            it.seq() == body@,
            keep == (|c: char| is_term_char(c)),
            token@ == body@.take(it.index() as int).filter(keep),
    {
        let ghost done = body@.take(it.index() as int);
        proof {
            assert(body@.take(it.index() + 1) == done.push(c));
            filter_push(done, c, keep);
        }
        if char_is_alphanumeric(c) && !punctuation(c) {
            push_char(&mut token, c);
        }
    }
    assert(body@.take(body@.len() as int) == body@);
    token
}

/// Filtering a sequence with one more element at its end.
pub proof fn filter_push<A>(s: Seq<A>, a: A, pred: spec_fn(A) -> bool)
    ensures
        s.push(a).filter(pred) == if pred(a) {
            s.filter(pred).push(a)
        } else {
            s.filter(pred)
        },
{
    reveal(Seq::filter);
    assert(s.push(a).drop_last() == s);
}

/// Splits a text on white space and turns each word into a token: lowercase,
/// only alphanumeric characters, none of the punctuation set.
pub fn tokenise(text: &str) -> (tokens: Vec<String>)
    ensures
        tokens.deep_view() == tokens_of(text@),
{
    broadcast use vstd::string::group_string_axioms;

    let ghost clean_fn = |w: Seq<char>| clean_word(w);
    let mut tokens: Vec<String> = Vec::new();
    let mut current = String::new();
    assert(text@.skip(0) == text@);
    assert(tokens.deep_view() == Seq::<Seq<char>>::empty());
    assert(tokens.deep_view() + split_from(current@, text@).map_values(clean_fn) == split_from(
        current@,
        text@,
    ).map_values(clean_fn));
    for c in it: text.chars()
        invariant
            it.seq() == text@,
            clean_fn == (|w: Seq<char>| clean_word(w)),
            split_whitespace(text@).map_values(clean_fn) == tokens.deep_view() + split_from(
                current@,
                text@.skip(it.index() as int),
            ).map_values(clean_fn),
    {
        let ghost rest = text@.skip(it.index() as int);
        let ghost before = tokens.deep_view();
        let ghost after = split_from(Seq::empty(), rest.drop_first());
        proof {
            assert(rest.first() == c);
            assert(rest.drop_first() == text@.skip(it.index() + 1));
        }
        if char_is_whitespace(c) {
            assert(split_from(current@, rest) == finished(current@) + after);
            if !current.as_str().is_empty() {
                let token = clean(current.as_str());
                tokens.push(token);
                proof {
                    assert(tokens.deep_view() == before.push(clean_word(current@)));
                    assert((seq![current@] + after).map_values(clean_fn) == seq![
                        clean_word(current@),
                    ] + after.map_values(clean_fn));
                    assert(before.push(clean_word(current@)) + after.map_values(clean_fn)
                        == before + (seq![clean_word(current@)] + after.map_values(clean_fn)));
                }
                current = String::new();
                assert(current@ == Seq::<char>::empty());
            } else {
                assert(Seq::<Seq<char>>::empty() + after == after);
                assert(current@ == Seq::<char>::empty());
            }
        } else {
            assert(split_from(current@, rest) == split_from(current@.push(c), rest.drop_first()));
            push_char(&mut current, c);
        }
    }
    assert(text@.skip(text@.len() as int).len() == 0);
    let ghost before = tokens.deep_view();
    if !current.as_str().is_empty() {
        let token = clean(current.as_str());
        tokens.push(token);
        assert(tokens.deep_view() == before.push(clean_word(current@)));
        assert(seq![current@].map_values(clean_fn) == seq![clean_word(current@)]);
        assert(before + seq![clean_word(current@)] == before.push(clean_word(current@)));
    } else {
        assert(Seq::<Seq<char>>::empty().map_values(clean_fn) == Seq::<Seq<char>>::empty());
        assert(before + Seq::<Seq<char>>::empty() == before);
    }
    tokens
}

fn stop_word(w: &str) -> (b: bool)
    ensures
        b == is_stop_word(w@),
{
    str_eq(w, "what")
        || str_eq(w, "which")
        || str_eq(w, "who")
        || str_eq(w, "whom")
        || str_eq(w, "this")
        || str_eq(w, "that")
        || str_eq(w, "these")
        || str_eq(w, "those")
        || str_eq(w, "am")
        || str_eq(w, "is")
        || str_eq(w, "are")
        || str_eq(w, "was")
        || str_eq(w, "were")
        || str_eq(w, "be")
        || str_eq(w, "been")
        || str_eq(w, "being")
        || str_eq(w, "have")
        || str_eq(w, "has")
        || str_eq(w, "had")
        || str_eq(w, "having")
        || str_eq(w, "do")
        || str_eq(w, "does")
        || str_eq(w, "did")
        || str_eq(w, "doing")
        || str_eq(w, "a")
        || str_eq(w, "an")
        || str_eq(w, "the")
        || str_eq(w, "and")
        || str_eq(w, "but")
        || str_eq(w, "if")
        || str_eq(w, "or")
        || str_eq(w, "because")
        || str_eq(w, "as")
        || str_eq(w, "until")
        || str_eq(w, "while")
        || str_eq(w, "of")
        || str_eq(w, "at")
        || str_eq(w, "by")
        || str_eq(w, "for")
        || str_eq(w, "with")
        || str_eq(w, "about")
        || str_eq(w, "against")
        || str_eq(w, "between")
        || str_eq(w, "into")
        || str_eq(w, "through")
        || str_eq(w, "during")
        || str_eq(w, "before")
        || str_eq(w, "after")
        || str_eq(w, "above")
        || str_eq(w, "below")
        || str_eq(w, "to")
        || str_eq(w, "from")
        || str_eq(w, "up")
        || str_eq(w, "down")
        || str_eq(w, "in")
        || str_eq(w, "out")
        || str_eq(w, "on")
        || str_eq(w, "off")
        || str_eq(w, "over")
        || str_eq(w, "under")
        || str_eq(w, "again")
        || str_eq(w, "further")
        || str_eq(w, "then")
        || str_eq(w, "once")
        || str_eq(w, "here")
        || str_eq(w, "there")
        || str_eq(w, "when")
        || str_eq(w, "where")
        || str_eq(w, "why")
        || str_eq(w, "how")
        || str_eq(w, "all")
        || str_eq(w, "any")
        || str_eq(w, "both")
        || str_eq(w, "each")
        || str_eq(w, "few")
        || str_eq(w, "more")
        || str_eq(w, "most")
        || str_eq(w, "other")
        || str_eq(w, "some")
        || str_eq(w, "such")
        || str_eq(w, "only")
        || str_eq(w, "own")
        || str_eq(w, "same")
        || str_eq(w, "so")
        || str_eq(w, "than")
        || str_eq(w, "too")
        || str_eq(w, "very")
        || str_eq(w, "s")
        || str_eq(w, "t")
        || str_eq(w, "can")
        || str_eq(w, "will")
        || str_eq(w, "just")
        || str_eq(w, "should")
}

/// Removes the empty strings and the stop words, keeping the order of the rest.
pub fn filter(words: Vec<String>) -> (kept: Vec<String>)
    ensures
        kept.deep_view() == words.deep_view().filter(|w: Seq<char>| is_indexed_term(w)),
{
    let ghost pred = |w: Seq<char>| is_indexed_term(w);
    let mut kept: Vec<String> = Vec::new();
    let mut i: usize = 0;
    while i < words.len()
        invariant
            i <= words.len(),
            pred == (|w: Seq<char>| is_indexed_term(w)),
            kept.deep_view() == words.deep_view().take(i as int).filter(pred),
        decreases words.len() - i,
    {
        let ghost done = words.deep_view().take(i as int);
        let ghost before = kept.deep_view();
        proof {
            assert(words.deep_view().take(i + 1) == done.push(words[i as int]@));
            filter_push(done, words[i as int]@, pred);
        }
        let word = words[i].as_str();
        if !word.is_empty() && !stop_word(word) {
            kept.push(words[i].clone());
            assert(kept.deep_view() == before.push(words[i as int]@));
        }
        i += 1;
    }
    assert(words.deep_view().take(words.len() as int) == words.deep_view());
    kept
}

/// Whether some entry of `counts` is for the term `w`.
pub open spec fn has_term(counts: Seq<(Seq<char>, u64)>, w: Seq<char>) -> bool {
    exists|i: int| 0 <= i < counts.len() && (#[trigger] counts[i]).0 == w
}

/// Whether `counts` is the bag of `words`: no term twice, each with the
/// number of its occurrences, which is positive, and no word left out.
pub open spec fn is_tally_of(counts: Seq<(Seq<char>, u64)>, words: Seq<Seq<char>>) -> bool {
    &&& forall|i: int, j: int|
        0 <= i < j < counts.len() ==> (#[trigger] counts[i]).0 != (#[trigger] counts[j]).0
    &&& forall|i: int|
        0 <= i < counts.len() ==> (#[trigger] counts[i]).1 >= 1 && counts[i].1 == occurrences(
            words,
            counts[i].0,
        )
    &&& forall|k: int| 0 <= k < words.len() ==> has_term(counts, #[trigger] words[k])
}

/// The place of the entry for the term `w` in `counts`.
pub open spec fn term_position(counts: Seq<(Seq<char>, u64)>, w: Seq<char>) -> int {
    choose|i: int| 0 <= i < counts.len() && (#[trigger] counts[i]).0 == w
}

/// The bag of `words` as a list: each term once, in the order in which the
/// terms first occur, with the number of its occurrences.
pub open spec fn tally(words: Seq<Seq<char>>) -> Seq<(Seq<char>, u64)>
    decreases words.len(),
{
    if words.len() == 0 {
        Seq::empty()
    } else {
        let before = tally(words.drop_last());
        let w = words.last();
        if has_term(before, w) {
            let j = term_position(before, w);
            before.update(j, (w, (before[j].1 + 1) as u64))
        } else {
            before.push((w, 1u64))
        }
    }
}

/// Every word has an entry in the tally of the words.
pub proof fn tally_has_each_word(words: Seq<Seq<char>>, i: int)
    requires
        0 <= i < words.len(),
    ensures
        has_term(tally(words), words[i]),
    decreases words.len(),
{
    let before = tally(words.drop_last());
    let w = words.last();
    let after = tally(words);
    if i < words.len() - 1 {
        tally_has_each_word(words.drop_last(), i);
        assert(words.drop_last()[i] == words[i]);
        let j = choose|j: int| 0 <= j < before.len() && (#[trigger] before[j]).0 == words[i];
        if has_term(before, w) {
            let place = term_position(before, w);
            assert(after[j].0 == words[i]);
        } else {
            assert(after[j].0 == words[i]);
        }
    } else if has_term(before, w) {
        let place = term_position(before, w);
        assert(after[place].0 == w);
    } else {
        assert(after[before.len() as int].0 == w);
    }
}

/// The tally of words is their bag, where none of them occurs too often to
/// be counted.
pub proof fn tally_is_tally(words: Seq<Seq<char>>)
    requires
        words.len() <= u64::MAX,
    ensures
        is_tally_of(tally(words), words),
    decreases words.len(),
{
    if words.len() > 0 {
        let seen = words.drop_last();
        let w = words.last();
        tally_is_tally(seen);
        assert(seen.push(w) == words);
        if has_term(tally(seen), w) {
            occurrences_bound(seen, w);
            tally_again(tally(seen), seen, w, term_position(tally(seen), w));
        } else {
            tally_first(tally(seen), seen, w);
        }
    }
}

/// Counts how often each term occurs. Every term of `words` appears once in
/// the result, in the order of its first occurrence, with its multiplicity.
pub fn count_words(words: Vec<String>) -> (counts: Vec<(String, u64)>)
    ensures
        counts.deep_view() == tally(words.deep_view()),
        is_tally_of(counts.deep_view(), words.deep_view()),
{
    let mut counts: Vec<(String, u64)> = Vec::new();
    let mut n: usize = 0;
    assert(counts.deep_view() == Seq::<(Seq<char>, u64)>::empty());
    while n < words.len()
        invariant
            n <= words.len(),
            counts.deep_view() == tally(words.deep_view().take(n as int)),
            is_tally_of(counts.deep_view(), words.deep_view().take(n as int)),
        decreases words.len() - n,
    {
        let ghost seen = words.deep_view().take(n as int);
        let ghost before = counts.deep_view();
        let ghost w = words[n as int]@;
        proof {
            assert(words.deep_view().take(n + 1) == seen.push(w));
            assert(seen.push(w).drop_last() == seen);
        }
        match position(&counts, words[n].as_str()) {
            Some(j) => {
                proof {
                    occurrences_bound(seen, w);
                    tally_again(before, seen, w, j as int);
                    assert(has_term(before, w));
                    let chosen = term_position(before, w);
                    if chosen < j {
                        assert(before[chosen].0 != before[j as int].0);
                    }
                    if j < chosen {
                        assert(before[j as int].0 != before[chosen].0);
                    }
                }
                counts[j].1 = counts[j].1 + 1;
                assert(counts.deep_view() == before.update(
                    j as int,
                    (w, (before[j as int].1 + 1) as u64),
                ));
            },
            None => {
                proof {
                    tally_first(before, seen, w);
                }
                counts.push((words[n].clone(), 1));
                assert(counts.deep_view() == before.push((w, 1u64)));
            },
        }
        n += 1;
    }
    assert(words.deep_view().take(words.len() as int) == words.deep_view());
    counts
}

fn position(counts: &Vec<(String, u64)>, word: &str) -> (found: Option<usize>)
    ensures
        match found {
            Some(j) => j < counts.len() && counts.deep_view()[j as int].0 == word@,
            None => !has_term(counts.deep_view(), word@),
        },
{
    let mut j: usize = 0;
    while j < counts.len()
        invariant
            j <= counts.len(),
            forall|i: int| 0 <= i < j ==> (#[trigger] counts.deep_view()[i]).0 != word@,
        decreases counts.len() - j,
    {
        if str_eq(counts[j].0.as_str(), word) {
            return Some(j);
        }
        j += 1;
    }
    None
}

/// A term occurs at most as often as there are words.
pub proof fn occurrences_bound(words: Seq<Seq<char>>, w: Seq<char>)
    ensures
        occurrences(words, w) <= words.len(),
    decreases words.len(),
{
    if words.len() > 0 {
        occurrences_bound(words.drop_last(), w);
    }
}

/// A term that equals none of the words occurs zero times.
pub proof fn occurrences_absent(words: Seq<Seq<char>>, w: Seq<char>)
    requires
        forall|k: int| 0 <= k < words.len() ==> words[k] != w,
    ensures
        occurrences(words, w) == 0,
    decreases words.len(),
{
    if words.len() > 0 {
        assert forall|k: int| 0 <= k < words.drop_last().len() implies words.drop_last()[k]
            != w by {
            assert(words.drop_last()[k] == words[k]);
        }
        occurrences_absent(words.drop_last(), w);
    }
}

/// A tally stays one when a word that it already holds is seen once more and
/// its count goes up by one.
pub proof fn tally_again(
    counts: Seq<(Seq<char>, u64)>,
    words: Seq<Seq<char>>,
    w: Seq<char>,
    j: int,
)
    requires
        is_tally_of(counts, words),
        0 <= j < counts.len(),
        counts[j].0 == w,
        counts[j].1 < u64::MAX,
    ensures
        is_tally_of(counts.update(j, (w, (counts[j].1 + 1) as u64)), words.push(w)),
{
    let after = counts.update(j, (w, (counts[j].1 + 1) as u64));
    let longer = words.push(w);
    assert(longer.drop_last() == words);
    assert forall|k: int| 0 <= k < longer.len() implies has_term(after, #[trigger] longer[k]) by {
        if k < words.len() {
            assert(has_term(counts, words[k]));
            let i = choose|i: int| 0 <= i < counts.len() && (#[trigger] counts[i]).0 == words[k];
            assert(after[i].0 == longer[k]);
        } else {
            assert(after[j].0 == longer[k]);
        }
    }
    assert forall|i: int| 0 <= i < after.len() implies (#[trigger] after[i]).1 >= 1 && after[i].1
        == occurrences(longer, after[i].0) by {
        if i != j {
            assert(after[i] == counts[i]);
            if i < j {
                assert(counts[i].0 != counts[j].0);
            } else {
                assert(counts[j].0 != counts[i].0);
            }
        }
    }
    assert forall|a: int, b: int| 0 <= a < b < after.len() implies (#[trigger] after[a]).0 != (
    #[trigger] after[b]).0 by {
        assert(after[a].0 == counts[a].0 && after[b].0 == counts[b].0);
    }
}

/// A tally stays one when a word that it does not hold yet is seen and
/// entered at its end with the count one.
pub proof fn tally_first(counts: Seq<(Seq<char>, u64)>, words: Seq<Seq<char>>, w: Seq<char>)
    requires
        is_tally_of(counts, words),
        !has_term(counts, w),
    ensures
        is_tally_of(counts.push((w, 1u64)), words.push(w)),
{
    let after = counts.push((w, 1u64));
    let longer = words.push(w);
    assert(longer.drop_last() == words);
    assert forall|k: int| 0 <= k < words.len() implies words[k] != w by {
        assert(has_term(counts, words[k]));
    }
    occurrences_absent(words, w);
    assert forall|k: int| 0 <= k < longer.len() implies has_term(after, #[trigger] longer[k]) by {
        if k < words.len() {
            assert(has_term(counts, words[k]));
            let i = choose|i: int| 0 <= i < counts.len() && (#[trigger] counts[i]).0 == words[k];
            assert(after[i].0 == longer[k]);
        } else {
            assert(after[counts.len() as int].0 == longer[k]);
        }
    }
    assert forall|i: int| 0 <= i < after.len() implies (#[trigger] after[i]).1 >= 1 && after[i].1
        == occurrences(longer, after[i].0) by {
        if i < counts.len() {
            assert(after[i] == counts[i]);
        }
    }
    assert forall|a: int, b: int| 0 <= a < b < after.len() implies (#[trigger] after[a]).0 != (
    #[trigger] after[b]).0 by {
        if b < counts.len() {
            assert(after[a] == counts[a] && after[b] == counts[b]);
        } else {
            assert(after[a] == counts[a]);
        }
    }
}

/// The words written one after the other with a single space between them.
pub open spec fn join_with_spaces(words: Seq<Seq<char>>) -> Seq<char>
    decreases words.len(),
{
    if words.len() == 0 {
        Seq::empty()
    } else if words.len() == 1 {
        words.first()
    } else {
        words.first() + seq![' '] + join_with_spaces(words.drop_first())
    }
}

/// Whether a string has no white space in it.
pub open spec fn has_no_white_space(s: Seq<char>) -> bool {
    forall|j: int| 0 <= j < s.len() ==> !is_white_space(#[trigger] s[j])
}

/// Whether a token is one that tokenising gives back unchanged: it is not
/// empty, has no white space, and is its own lowercase form.
pub open spec fn is_stable_token(t: Seq<char>) -> bool {
    t.len() > 0 && has_no_white_space(t) && lowercase_of(t) == t
}

/// Characters without white space that follow a word in progress only make
/// that word longer.
pub proof fn split_from_word(current: Seq<char>, word: Seq<char>, rest: Seq<char>)
    requires
        has_no_white_space(word),
    ensures
        split_from(current, word + rest) == split_from(current + word, rest),
    decreases word.len(),
{
    if word.len() == 0 {
        assert(word + rest == rest);
        assert(current + word == current);
    } else {
        let text = word + rest;
        assert(text.first() == word.first());
        assert(!is_white_space(word[0]));
        assert(text.drop_first() == word.drop_first() + rest);
        assert forall|j: int| 0 <= j < word.drop_first().len() implies !is_white_space(
            #[trigger] word.drop_first()[j],
        ) by {
            assert(word.drop_first()[j] == word[j + 1]);
        }
        split_from_word(current.push(word.first()), word.drop_first(), rest);
        assert(current.push(word.first()) + word.drop_first() == current + word);
    }
}

/// Splitting what `join_with_spaces` made of words that are not empty and
/// hold no white space gives the words back.
pub proof fn split_of_joined(words: Seq<Seq<char>>)
    requires
        forall|i: int|
            0 <= i < words.len() ==> (#[trigger] words[i]).len() > 0 && has_no_white_space(
                words[i],
            ),
    ensures
        split_whitespace(join_with_spaces(words)) == words,
    decreases words.len(),
{
    let none = Seq::<char>::empty();
    if words.len() == 0 {
    } else if words.len() == 1 {
        let w = words.first();
        split_from_word(none, w, none);
        assert(w + none == w);
        assert(none + w == w);
        assert(words == seq![w]);
    } else {
        let w = words.first();
        let tail = words.drop_first();
        let joined_tail = join_with_spaces(tail);
        let after = seq![' '] + joined_tail;
        assert(join_with_spaces(words) == w + after);
        split_from_word(none, w, after);
        assert(none + w == w);
        assert(after.first() == ' ');
        assert(after.drop_first() == joined_tail);
        assert forall|i: int| 0 <= i < tail.len() implies (#[trigger] tail[i]).len() > 0
            && has_no_white_space(tail[i]) by {
            assert(tail[i] == words[i + 1]);
        }
        split_of_joined(tail);
        assert(seq![w] + tail == words);
    }
}

/// Filtering leaves a sequence as it is when every element passes.
pub proof fn filter_keeps_all<A>(s: Seq<A>, pred: spec_fn(A) -> bool)
    requires
        forall|i: int| 0 <= i < s.len() ==> pred(#[trigger] s[i]),
    ensures
        s.filter(pred) == s,
    decreases s.len(),
{
    reveal(Seq::filter);
    if s.len() > 0 {
        assert forall|i: int| 0 <= i < s.drop_last().len() implies pred(
            #[trigger] s.drop_last()[i],
        ) by {
            assert(s.drop_last()[i] == s[i]);
        }
        filter_keeps_all(s.drop_last(), pred);
        assert(s.drop_last().push(s.last()) == s);
    }
}

/// Cleaning a token that came out of cleaning, and that lowercasing and
/// trimming leave alone, changes nothing.
pub proof fn clean_word_of_stable_token(word: Seq<char>)
    requires
        is_stable_token(clean_word(word)),
    ensures
        clean_word(clean_word(word)) == clean_word(word),
{
    broadcast use vstd::seq_lib::group_filter_ensures;

    let t = clean_word(word);
    let keep = |c: char| is_term_char(c);
    assert(!is_white_space(t[0]));
    assert(!is_white_space(t[t.len() - 1]));
    assert(trimmed(t) == t);
    assert(forall|i: int| 0 <= i < t.len() ==> keep(#[trigger] t[i]));
    filter_keeps_all(t, keep);
}

/// Tokenising is idempotent on stable tokens: where every token of a text is
/// stable, tokenising the tokens joined by single spaces gives the same
/// tokens again.
pub proof fn tokenise_of_joined_tokens(text: Seq<char>)
    requires
        forall|i: int|
            0 <= i < tokens_of(text).len() ==> is_stable_token(#[trigger] tokens_of(text)[i]),
    ensures
        tokens_of(join_with_spaces(tokens_of(text))) == tokens_of(text),
{
    let tokens = tokens_of(text);
    let words = split_whitespace(text);
    split_of_joined(tokens);
    assert forall|i: int| 0 <= i < tokens.len() implies clean_word(#[trigger] tokens[i])
        == tokens[i] by {
        assert(tokens[i] == clean_word(words[i]));
        clean_word_of_stable_token(words[i]);
    }
    assert(tokens.map_values(|w: Seq<char>| clean_word(w)) == tokens);
}

/// What holds of every element of a sequence holds of every element that
/// a filter lets through, and so does what the filter asks.
pub proof fn filter_keeps_property<A>(s: Seq<A>, pred: spec_fn(A) -> bool, prop: spec_fn(A) -> bool)
    requires
        forall|i: int| 0 <= i < s.len() ==> prop(#[trigger] s[i]),
    ensures
        forall|i: int|
            0 <= i < s.filter(pred).len() ==> prop(#[trigger] s.filter(pred)[i]) && pred(
                s.filter(pred)[i],
            ),
    decreases s.len(),
{
    reveal(Seq::filter);
    if s.len() > 0 {
        assert forall|i: int| 0 <= i < s.drop_last().len() implies prop(
            #[trigger] s.drop_last()[i],
        ) by {
            assert(s.drop_last()[i] == s[i]);
        }
        filter_keeps_property(s.drop_last(), pred, prop);
        let shorter = s.drop_last().filter(pred);
        assert(prop(s[s.len() - 1]));
        assert forall|i: int| 0 <= i < s.filter(pred).len() implies prop(
            #[trigger] s.filter(pred)[i],
        ) && pred(s.filter(pred)[i]) by {
            if i < shorter.len() {
                assert(s.filter(pred)[i] == shorter[i]);
            } else {
                assert(s.filter(pred)[i] == s.last());
            }
        }
    }
}

/// What holds of every character of a text holds of every character of its
/// words.
pub proof fn split_from_keeps(current: Seq<char>, rest: Seq<char>, prop: spec_fn(char) -> bool)
    requires
        each_char(current, prop),
        each_char(rest, prop),
    ensures
        forall|i: int|
            0 <= i < split_from(current, rest).len() ==> each_char(
                #[trigger] split_from(current, rest)[i],
                prop,
            ),
    decreases rest.len(),
{
    if rest.len() > 0 {
        assert forall|i: int| 0 <= i < rest.drop_first().len() implies prop(
            #[trigger] rest.drop_first()[i],
        ) by {
            assert(rest.drop_first()[i] == rest[i + 1]);
        }
        if is_white_space(rest.first()) {
            let first = finished(current);
            let others = split_from(Seq::empty(), rest.drop_first());
            split_from_keeps(Seq::empty(), rest.drop_first(), prop);
            assert(split_from(current, rest) == first + others);
            assert forall|i: int| 0 <= i < (first + others).len() implies each_char(
                #[trigger] (first + others)[i],
                prop,
            ) by {
                if i < first.len() {
                    assert((first + others)[i] == current);
                } else {
                    assert((first + others)[i] == others[i - first.len()]);
                }
            }
        } else {
            let longer = current.push(rest.first());
            assert forall|i: int| 0 <= i < longer.len() implies prop(#[trigger] longer[i]) by {
                if i < current.len() {
                    assert(longer[i] == current[i]);
                } else {
                    assert(longer[i] == rest[0]);
                }
            }
            split_from_keeps(longer, rest.drop_first(), prop);
            assert(split_from(current, rest) == split_from(longer, rest.drop_first()));
        }
    } else {
        assert(split_from(current, rest) == finished(current));
        assert forall|i: int| 0 <= i < finished(current).len() implies each_char(
            #[trigger] finished(current)[i],
            prop,
        ) by {
            assert(finished(current)[i] == current);
        }
    }
}

/// Whether a character is below U+0080 and no capital letter.
pub open spec fn is_small_ascii(c: char) -> bool {
    c <= '\x7f' && !('A' <= c && c <= 'Z')
}

/// The token of a word of characters below U+0080 is stable, where it is
/// not empty.
pub proof fn ascii_token_is_stable(word: Seq<char>)
    requires
        is_ascii_text(word),
        clean_word(word).len() > 0,
    ensures
        is_stable_token(clean_word(word)),
{
    let small = |c: char| is_small_ascii(c);
    let keep = |c: char| is_term_char(c);
    let low = lowercase_of(word);
    assert(each_char(low, small)) by {
        assert forall|i: int| 0 <= i < low.len() implies small(#[trigger] low[i]) by {
            assert(low[i] == ascii_lower(word[i]));
            assert(word[i] <= '\x7f');
        }
    }
    trimmed_keeps(low, small);
    filter_keeps_property(trimmed(low), keep, small);
    let t = clean_word(word);
    assert forall|i: int| 0 <= i < t.len() implies is_small_ascii(#[trigger] t[i]) && is_term_char(
        t[i],
    ) by {
        assert(small(t[i]) && keep(t[i]));
    }
    assert(is_ascii_text(t));
    assert(ascii_lowercase(t) == t);
}

/// Tokenising is idempotent on texts of characters below U+0080 of which no
/// token is empty: tokenising the tokens joined by single spaces gives the
/// same tokens again.
pub proof fn tokenise_of_joined_ascii_tokens(text: Seq<char>)
    requires
        is_ascii_text(text),
        forall|i: int| 0 <= i < tokens_of(text).len() ==> (#[trigger] tokens_of(text)[i]).len() > 0,
    ensures
        tokens_of(join_with_spaces(tokens_of(text))) == tokens_of(text),
{
    let below = |c: char| c <= '\x7f';
    let words = split_whitespace(text);
    assert(each_char(text, below));
    split_from_keeps(Seq::empty(), text, below);
    assert forall|i: int| 0 <= i < tokens_of(text).len() implies is_stable_token(
        #[trigger] tokens_of(text)[i],
    ) by {
        assert(tokens_of(text)[i] == clean_word(words[i]));
        assert(each_char(words[i], below));
        assert(is_ascii_text(words[i]));
        ascii_token_is_stable(words[i]);
    }
    tokenise_of_joined_tokens(text);
}

} // verus!
