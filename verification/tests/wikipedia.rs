use ceridwen::wikipedia::filter_between;
use ceridwen::wikipedia::filter_square_brackets;

#[test]
fn test_filter_between() {
    let cases = [
        ("here {{is a thing}} opens", "here  opens"),
        ("here {{is a thing {{with nesting stuff}}}} opens", "here  opens"),
    ];

    for (input, expected) in cases.into_iter() {
        let result = filter_between(input, '{', '{', '}', '}');
        assert_eq!(result, expected);
    }
}

#[test]
fn test_square_brackets() {
    let cases = [
        ("some text [[an article name|article]] foo bar", "some text article foo bar"),
        ("some text [[an article name]] foo bar", "some text an article name foo bar"),
        (
            "some text [[an article name|something [[nested]]]] foo bar",
            "some text something nested foo bar",
        ),
        (
            "some text [[an article name|something [[with sub bits|nested]]]] foo bar",
            "some text something nested foo bar",
        ),
    ];

    for (input, expected) in cases.into_iter() {
        let result = filter_square_brackets(input);
        assert_eq!(result, expected)
    }
}

#[test]
fn filter_between_with_nesting() {
    assert_eq!(
        filter_between("here {{is a thing {{with nesting}}}} opens", '{', '{', '}', '}'),
        "here  opens"
    );
}

#[test]
fn filter_between_tables() {
    assert_eq!(filter_between("a {| table |} b", '{', '|', '|', '}'), "a  b");
}

#[test]
fn filter_between_passes_a_single_opener() {
    assert_eq!(filter_between("a { b } c", '{', '{', '}', '}'), "a { b } c");
    assert_eq!(filter_between("ends with {", '{', '{', '}', '}'), "ends with {");
}

#[test]
fn filter_between_without_regions() {
    assert_eq!(filter_between("plain text", '{', '{', '}', '}'), "plain text");
    assert_eq!(filter_between("", '{', '{', '}', '}'), "");
}

#[test]
fn filter_between_two_regions() {
    assert_eq!(filter_between("a{{x}}b{{y}}c", '{', '{', '}', '}'), "abc");
}

#[test]
fn square_brackets_scenarios() {
    assert_eq!(
        filter_square_brackets("some text [[an article name|article]] foo"),
        "some text article foo"
    );
    assert_eq!(filter_square_brackets("[[a|[[b|c]]]]"), "c");
}

#[test]
fn square_brackets_two_links() {
    assert_eq!(filter_square_brackets("[[a]] and [[b]]"), "a and b");
    assert_eq!(filter_square_brackets("[[x [[a]] [[b]]]]"), "x a b");
}

#[test]
fn square_brackets_single_bracket() {
    assert_eq!(filter_square_brackets("a [b] c"), "a [b] c");
    assert_eq!(filter_square_brackets("ends with ["), "ends with [");
}

#[test]
fn square_brackets_last_bar_wins() {
    assert_eq!(filter_square_brackets("[[a|b|c]]"), "c");
}

use ceridwen::clock::Interval;
use ceridwen::clock::Timestamp;
use ceridwen::data::Page;
use ceridwen::data::PageUrl;
use ceridwen::error::CeridwenError;
use ceridwen::index_sled::Index;
use ceridwen::rss_ingester::FeedItem;
use ceridwen::wikipedia::create_url;
use ceridwen::wikipedia::dump_date;
use ceridwen::wikipedia::dump_file_name;
use ceridwen::wikipedia::is_new_dump;
use ceridwen::wikipedia::page_step;
use ceridwen::wikipedia::process_page_at;
use ceridwen::wikipedia::read_element_text;
use ceridwen::wikipedia::read_page;
use ceridwen::wikipedia::remove_heading_marks;
use ceridwen::wikipedia::strip_page;
use ceridwen::wikipedia::PageState;
use ceridwen::wikipedia::Step;
use ceridwen::wikipedia::XmlEvent;

#[test]
fn filter_between_stays_in_a_region_on_a_single_mark() {
    // A single opener or closer in a region neither opens nor closes: the
    // region ends at its closing pair.
    assert_eq!(filter_between("{{a {b} c}} d", '{', '{', '}', '}'), " d");
    assert_eq!(filter_between("{{a {b}} c", '{', '{', '}', '}'), " c");
    assert_eq!(filter_between("x {{a } b}} y", '{', '{', '}', '}'), "x  y");
    assert_eq!(filter_between("x {{a {{b { c}} d}} y", '{', '{', '}', '}'), "x  y");
    assert_eq!(filter_between("x {{a }}} y", '{', '{', '}', '}'), "x } y");
    assert_eq!(filter_between("x {{{a}} y", '{', '{', '}', '}'), "x  y");
    assert_eq!(filter_between("{| a {b |} c", '{', '|', '|', '}'), " c");
}

#[test]
fn filter_between_pairs_from_the_left() {
    assert_eq!(filter_between("a {{{b}}} c", '{', '{', '}', '}'), "a } c");
    assert_eq!(filter_between("a {x{{b}} c", '{', '{', '}', '}'), "a {x c");
    assert_eq!(filter_between("a {|{{b}} c", '{', '{', '}', '}'), "a {| c");
}

#[test]
fn square_brackets_single_bracket_in_a_link() {
    // A single bracket in a link is text of the link.
    assert_eq!(filter_square_brackets("[[a [b] c]] d"), "a [b] c d");
    assert_eq!(filter_square_brackets("[[a [b]] c"), "a [b c");
    assert_eq!(filter_square_brackets("[[t|a ] b]]"), "a ] b");
    assert_eq!(filter_square_brackets("[[a [|b]]"), "b");
    assert_eq!(filter_square_brackets("[[a ]|b]]"), "b");
    assert_eq!(filter_square_brackets("[[x [[a [b]] y]]"), "x a [b y");
    assert_eq!(filter_square_brackets("[x[[a]]"), "[xa");
    assert_eq!(filter_square_brackets("[[a][[b]]]]"), "a]b");
}

#[test]
fn filter_between_drops_an_open_region() {
    assert_eq!(filter_between("a {{b", '{', '{', '}', '}'), "a ");
}

#[test]
fn heading_marks_are_removed_from_the_left() {
    assert_eq!(remove_heading_marks("== Title =="), " Title ");
    assert_eq!(remove_heading_marks("a=b"), "a=b");
    assert_eq!(remove_heading_marks("==="), "=");
    assert_eq!(remove_heading_marks("===="), "");
    assert_eq!(remove_heading_marks("x="), "x=");
    assert_eq!(remove_heading_marks(""), "");
}

fn wiki_page(title: &str, content: &str) -> Page {
    Page { url: create_url(title).unwrap(), title: title.to_string(), content: content.to_string() }
}

#[test]
fn strip_page_removes_the_markup() {
    let page = wiki_page(
        "Cat",
        "{{Infobox|x}}The '''cat''' is a [[Felidae|small cat]].\n{| class=\"t\"\n| cell\n|}\n== Habitat ==\nHomes.",
    );
    let clean = strip_page(&page);
    assert_eq!(clean.title, "Cat");
    assert_eq!(clean.url.as_str(), "https://en.wikipedia.org/wiki/Cat");
    assert_eq!(clean.content, "The '''cat''' is a small cat.\n\n Habitat \nHomes.");
}

#[test]
fn create_url_puts_underscores_for_spaces() {
    let url = create_url("Albert Einstein (physicist)").unwrap();
    assert_eq!(url.as_str(), "https://en.wikipedia.org/wiki/Albert_Einstein_(physicist)");
    assert_eq!(url.scheme(), "https");
    assert_eq!(url.host_str(), Some("en.wikipedia.org"));
    assert_eq!(url.path(), "/wiki/Albert_Einstein_(physicist)");
}

#[test]
fn element_text_is_unescaped() {
    assert_eq!(read_element_text(b"Tom &amp; Jerry &lt;3").unwrap(), "Tom & Jerry <3");
    assert_eq!(read_element_text(b"caf\xc3\xa9 &#233;").unwrap(), "café é");
    assert!(matches!(read_element_text(b"a &bogus; b"), Err(CeridwenError::InvalidXML(Some(_)))));
    assert!(matches!(read_element_text(b"\xff"), Err(CeridwenError::InvalidXML(None))));
}

fn start(name: &str) -> XmlEvent {
    XmlEvent::Start(name.as_bytes().to_vec())
}

fn end(name: &str) -> XmlEvent {
    XmlEvent::End(name.as_bytes().to_vec())
}

fn text(content: &str) -> XmlEvent {
    XmlEvent::Text(content.as_bytes().to_vec())
}

fn page_events(title: &str, content: &str) -> Vec<XmlEvent> {
    vec![
        start("page"),
        XmlEvent::Text(b"\n  ".to_vec()),
        start("title"),
        text(title),
        end("title"),
        start("ns"),
        text("0"),
        end("ns"),
        start("revision"),
        start("text"),
        text(content),
        end("text"),
        XmlEvent::Other,
        end("revision"),
        end("page"),
    ]
}

#[test]
fn read_page_reads_one_page_after_the_other() {
    let mut events = vec![start("mediawiki")];
    events.extend(page_events("First Page", "one &amp; two"));
    events.extend(page_events("Second", "three"));
    events.push(end("mediawiki"));
    events.push(XmlEvent::Eof);

    let (first, next) = read_page(&events, 0).unwrap().unwrap();
    assert_eq!(first.title, "First Page");
    assert_eq!(first.content, "one & two");
    assert_eq!(first.url.as_str(), "https://en.wikipedia.org/wiki/First_Page");
    assert_eq!(next, 16);

    let (second, next) = read_page(&events, next).unwrap().unwrap();
    assert_eq!(second.title, "Second");
    assert_eq!(second.content, "three");
    assert_eq!(next, 31);

    assert!(read_page(&events, next).unwrap().is_none());
    assert!(read_page(&events, events.len()).unwrap().is_none());
    assert!(read_page(&Vec::new(), 0).unwrap().is_none());
}

#[test]
fn read_page_refuses_what_must_not_come() {
    // an empty title: the end of the element comes where its text should
    let events = vec![start("title"), end("title")];
    assert!(matches!(read_page(&events, 0), Err(CeridwenError::InvalidState(_))));
    // the file ends in the middle of a page
    let events = vec![start("title"), text("T"), end("title"), XmlEvent::Eof];
    assert!(matches!(read_page(&events, 0), Err(CeridwenError::InvalidState(_))));
    let events = vec![start("title"), text("T"), end("title"), start("text"), text("x"), end("text")];
    assert!(matches!(read_page(&events, 0), Err(CeridwenError::InvalidState(_))));
    // a text that cannot be read
    let events = vec![start("title"), text("&nope;")];
    assert!(matches!(read_page(&events, 0), Err(CeridwenError::InvalidXML(_))));
}

#[test]
fn page_step_follows_the_states() {
    let step = page_step(PageState::Limbo1, &start("title")).unwrap();
    assert!(matches!(step, Step::Next(PageState::TitleStarted)));
    let step = page_step(PageState::Limbo1, &start("other")).unwrap();
    assert!(matches!(step, Step::Next(PageState::Limbo1)));
    let step = page_step(PageState::Limbo1, &XmlEvent::Eof).unwrap();
    assert!(matches!(step, Step::End));
    let step = page_step(PageState::TitleStarted, &text("A &amp; B")).unwrap();
    match step {
        Step::Next(PageState::Title { title }) => assert_eq!(title, "A & B"),
        other => panic!("{:?}", other),
    }
    let step = page_step(PageState::Title { title: "T".to_string() }, &end("title")).unwrap();
    assert!(matches!(step, Step::Next(PageState::Limbo2 { .. })));
    let step = page_step(PageState::Limbo2 { title: "T".to_string() }, &start("text")).unwrap();
    assert!(matches!(step, Step::Next(PageState::TextStarted { .. })));
    let step = page_step(PageState::TextStarted { title: "T".to_string() }, &text("body")).unwrap();
    assert!(matches!(step, Step::Next(PageState::Text { .. })));
    let state = PageState::Text { title: "T".to_string(), text: "body".to_string() };
    let step = page_step(state, &end("text")).unwrap();
    assert!(matches!(step, Step::Next(PageState::Limbo4 { .. })));
    let state = PageState::Limbo4 { title: "T t".to_string(), text: "body".to_string() };
    match page_step(state, &end("page")).unwrap() {
        Step::Page(page) => {
            assert_eq!(page.title, "T t");
            assert_eq!(page.content, "body");
            assert_eq!(page.url.as_str(), "https://en.wikipedia.org/wiki/T_t");
        },
        other => panic!("{:?}", other),
    }
    match page_step(PageState::Title { title: "T".to_string() }, &end("text")) {
        Err(CeridwenError::InvalidState(message)) => {
            assert_eq!(message, "got into state: Title processing event: End")
        },
        other => panic!("{:?}", other),
    }
}

fn dated(date: Option<&str>) -> FeedItem {
    FeedItem {
        link: None,
        title: None,
        content: None,
        description: None,
        pub_date: date.map(|d| d.to_string()),
    }
}

#[test]
fn dump_date_is_the_date_of_the_first_item() {
    let items = vec![dated(Some("Fri, 02 Feb 2024 09:03:51 GMT")), dated(None)];
    assert_eq!(dump_date(&items).unwrap(), Timestamp { unix_nanos: 1_706_864_631_000_000_000 });
    assert!(matches!(dump_date(&Vec::new()), Err(CeridwenError::WikipediaMissingDate)));
    assert!(matches!(dump_date(&vec![dated(None)]), Err(CeridwenError::WikipediaMissingDate)));
    assert!(matches!(dump_date(&vec![dated(Some("yesterday"))]), Err(CeridwenError::TimeParsing(_))));
}

#[test]
fn a_dump_is_new_when_it_was_made_after_the_last_run() {
    let made = Timestamp { unix_nanos: 10 };
    assert!(is_new_dump(made, Timestamp { unix_nanos: 9 }));
    assert!(!is_new_dump(made, Timestamp { unix_nanos: 10 }));
    assert!(!is_new_dump(made, Timestamp { unix_nanos: 11 }));
}

#[test]
fn dump_file_name_holds_the_instant() {
    let made = Timestamp { unix_nanos: 1_706_864_631_000_000_000 };
    assert_eq!(dump_file_name(made).unwrap(), "enwiki-latest-2024_02_02_09_03_51.xml.bz2");
    let never = Timestamp { unix_nanos: i128::MAX };
    assert!(matches!(dump_file_name(never), Err(CeridwenError::TimeFormatting)));
}

#[test]
fn process_page_passes_over_redirects() {
    let words = sled::Config::new().temporary(true).open().unwrap();
    let pages = sled::Config::new().temporary(true).open().unwrap();
    let urls = sled::Config::new().temporary(true).open().unwrap();
    let mut index = Index::new(words.clone(), pages.clone(), urls.clone(), sled::Config::new().temporary(true).open().unwrap());
    let now = Timestamp { unix_nanos: 0 };
    let redirect = wiki_page("Kitten", "#REDIRECT [[Cat]]");
    process_page_at(&mut index, &redirect, Interval::days(1), now).unwrap();
    assert_eq!(pages.len(), 0);
    assert_eq!(words.len(), 0);
    let cat = wiki_page("Cat", "{{short}}A [[Felidae|feline]].");
    process_page_at(&mut index, &cat, Interval::days(1), now).unwrap();
    assert_eq!(pages.len(), 1);
    let found = index.search("feline").unwrap();
    assert_eq!(found.len(), 1);
    assert_eq!(found[0].url, "https://en.wikipedia.org/wiki/Cat");
    assert_eq!(found[0].description, "A feline.");
    assert_eq!(index.search("felidae").unwrap().len(), 0);
    assert_eq!(PageUrl::parse("https://en.wikipedia.org/wiki/Cat").unwrap().path(), "/wiki/Cat");
}
