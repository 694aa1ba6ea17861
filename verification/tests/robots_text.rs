use ceridwen::data::PageUrl;
use ceridwen::error::CeridwenError;
use ceridwen::robots_text::RobotRule;
use ceridwen::robots_text::Robots;

#[test]
fn test_robots_parsing_basic() {
    // based on https://www.slate.com/robots.txt
    let input = "User-agent: feedjira
Disallow: /

User-agent: magpie-crawler
Disallow: /

User-agent: *
Disallow: /bullpen/
        ";

    let result = Robots::parse_file(input.as_bytes());
    assert!(!result.is_err(), "Parsing input should not have failed");

    let robots_result = result.unwrap();
    println!("Result: {:?}", robots_result);

    let feedjira_result = robots_result.get_rules("feedjira");
    assert_eq!(
        feedjira_result.len(),
        1,
        "Wrong number of results for feedjira"
    );

    assert_eq!(
        feedjira_result[0],
        RobotRule::Deny("/".to_string()),
        "feedjira rule not as expected"
    );

    let wildcard_result = robots_result.get_rules("Non Existant User Agent");
    assert_eq!(
        wildcard_result.len(),
        1,
        "Wrong number of results for wildcard"
    );

    assert_eq!(
        wildcard_result[0],
        RobotRule::Deny("/bullpen/".to_string()),
        "wildcard rule not as expected"
    )
}

fn url(text: &str) -> PageUrl {
    PageUrl::parse(text).unwrap()
}

#[test]
fn robots_scenario() {
    let robots = Robots::parse_text(
        "User-agent: feedjira\nDisallow: /\nUser-agent: *\nDisallow: /bullpen/\n",
    );
    assert_eq!(
        robots.check_url("feedjira", &url("http://x/anything")),
        Some(RobotRule::Deny("/".to_string()))
    );
    assert_eq!(
        robots.check_url("other", &url("http://x/bullpen/a")),
        Some(RobotRule::Deny("/bullpen/".to_string()))
    );
    assert_eq!(robots.check_url("other", &url("http://x/news")), None);
    assert!(!robots.allows("feedjira", &url("http://x/anything")));
    assert!(robots.allows("other", &url("http://x/news")));
}

#[test]
fn robots_empty_body_permits_everything() {
    let robots = Robots::parse_file(b"").unwrap();
    assert_eq!(robots.get_rules("anyone"), Vec::<RobotRule>::new());
    assert_eq!(robots.check_url("anyone", &url("http://x/a/b")), None);
    assert!(robots.allows("anyone", &url("http://x/a/b")));
}

#[test]
fn robots_keys_ignore_case() {
    let upper = Robots::parse_text("USER-AGENT: a\nDISALLOW: /x\nALLOW: /x/y\n");
    let lower = Robots::parse_text("user-agent: a\ndisallow: /x\nallow: /x/y\n");
    assert_eq!(upper.get_rules("a"), lower.get_rules("a"));
    assert_eq!(
        upper.get_rules("a"),
        vec![RobotRule::Allow("/x/y".to_string()), RobotRule::Deny("/x".to_string())]
    );
}

#[test]
fn robots_last_declared_rule_wins() {
    let robots = Robots::parse_text("User-agent: a\nDisallow: /x\nAllow: /x/y\n");
    assert_eq!(
        robots.check_url("a", &url("http://h/x/y/z")),
        Some(RobotRule::Allow("/x/y".to_string()))
    );
    assert_eq!(
        robots.check_url("a", &url("http://h/x/z")),
        Some(RobotRule::Deny("/x".to_string()))
    );
}

#[test]
fn robots_group_of_several_agents() {
    let robots = Robots::parse_text("User-agent: a\nUser-agent: b\nDisallow: /p\n# note\n\nAllow: /q\n");
    let expected = vec![RobotRule::Allow("/q".to_string()), RobotRule::Deny("/p".to_string())];
    assert_eq!(robots.get_rules("a"), expected);
    assert_eq!(robots.get_rules("b"), expected);
    assert_eq!(robots.get_rules("c"), Vec::<RobotRule>::new());
}

#[test]
fn robots_named_agent_without_rules_hides_the_wildcard() {
    let robots = Robots::parse_text("User-agent: *\nDisallow: /\nUser-agent: quiet\n");
    assert_eq!(robots.get_rules("quiet"), Vec::<RobotRule>::new());
    assert_eq!(robots.get_rules("loud"), vec![RobotRule::Deny("/".to_string())]);
}

#[test]
fn robots_lines_may_end_with_carriage_returns() {
    let robots = Robots::parse_file(b"User-agent: a\r\nDisallow: /p\r\n").unwrap();
    assert_eq!(robots.get_rules("a"), vec![RobotRule::Deny("/p".to_string())]);
}

#[test]
fn robots_key_needs_a_value() {
    let robots = Robots::parse_text("User-agent: a\nDisallow: \nDisallow:/x\n");
    assert_eq!(robots.get_rules("a"), Vec::<RobotRule>::new());
}

#[test]
fn robots_body_must_be_utf8() {
    let result = Robots::parse_file(&[b'a', 0xff, b'\n']);
    assert!(matches!(result, Err(CeridwenError::IOError(_))));
}

use ceridwen::robots_text::check_robots;
use ceridwen::robots_text::robots_url;
use ceridwen::strings::starts_with;

#[test]
fn robots_url_of_a_page() {
    let robots = robots_url(&url("https://example.com:8080/a/b?c=d")).unwrap();
    assert_eq!(robots.as_str(), "https://example.com/robots.txt");
    match robots_url(&url("mailto:someone@example.com")) {
        Err(CeridwenError::MissingHost(text)) => assert_eq!(text, "mailto:someone@example.com"),
        other => panic!("{:?}", other),
    }
}

#[test]
fn check_robots_permits_where_there_is_no_file() {
    let page = url("https://example.com/feed.xml");
    let robots = robots_url(&page).unwrap();
    let missing = Err(CeridwenError::PageNotFound("https://example.com/robots.txt".to_string()));
    assert_eq!(check_robots(missing, &robots, &page).unwrap(), true);
}

#[test]
fn check_robots_hands_other_errors_on() {
    let page = url("https://example.com/feed.xml");
    let robots = robots_url(&page).unwrap();
    let other = Err(CeridwenError::PageNotFound("https://example.com/else".to_string()));
    assert!(matches!(check_robots(other, &robots, &page), Err(CeridwenError::PageNotFound(_))));
    let failed = Err(CeridwenError::Request(500));
    assert!(matches!(check_robots(failed, &robots, &page), Err(CeridwenError::Request(500))));
}

#[test]
fn check_robots_applies_the_rules_for_the_crawler() {
    let page = url("https://example.com/private/feed.xml");
    let robots = robots_url(&page).unwrap();
    let body = b"User-agent: ceridwen-crawler\nDisallow: /private/\n".to_vec();
    assert_eq!(check_robots(Ok(body), &robots, &page).unwrap(), false);
    let body = b"User-agent: *\nDisallow: /private/\nUser-agent: ceridwen-crawler\nAllow: /\n".to_vec();
    assert_eq!(check_robots(Ok(body), &robots, &page).unwrap(), true);
    let body = b"User-agent: *\nDisallow: /other/\n".to_vec();
    assert_eq!(check_robots(Ok(body), &robots, &page).unwrap(), true);
    assert!(matches!(check_robots(Ok(vec![0xff]), &robots, &page), Err(CeridwenError::IOError(_))));
}

#[test]
fn starts_with_compares_characters() {
    assert!(starts_with("/bullpen/a", "/bullpen/"));
    assert!(starts_with("abc", ""));
    assert!(starts_with("", ""));
    assert!(!starts_with("ab", "abc"));
    assert!(!starts_with("/news", "/bullpen/"));
    assert!(starts_with("éa", "é"));
}

#[test]
fn errors_of_the_same_kind_are_equal() {
    assert!(CeridwenError::BadIndexRecord == CeridwenError::BadIndexRecord);
    assert!(CeridwenError::BadIndexRecord != CeridwenError::MissingBaseUrl);
    assert!(CeridwenError::Request(404) == CeridwenError::Request(500));
    assert!(CeridwenError::MissingHost("a".to_string()) == CeridwenError::MissingHost("b".to_string()));
    assert!(CeridwenError::PageNotFound("a".to_string()) == CeridwenError::PageNotFound("a".to_string()));
    assert!(CeridwenError::PageNotFound("a".to_string()) != CeridwenError::PageNotFound("b".to_string()));
}

#[test]
fn robots_lines_are_trimmed() {
    let robots = Robots::parse_text("  User-agent: a  \n\tDisallow: /x \n   # Disallow: /y\n");
    assert_eq!(robots.get_rules("a"), vec![RobotRule::Deny("/x".to_string())]);
}

#[test]
fn robots_bodies_that_differ_in_the_case_of_keys_give_the_same_rules() {
    let mixed = Robots::parse_text(
        "  USER-agent: x\r\n\tDisAllow: /a  \n# Note\n\nALLOW: /b\nUser-Agent: Y\ndisallow: /C\n",
    );
    let lower = Robots::parse_text(
        "  user-agent: x\r\n\tdisallow: /a  \n# Note\n\nallow: /b\nuser-agent: Y\ndisallow: /C\n",
    );
    for agent in ["x", "Y", "y", "*", "other"] {
        assert_eq!(mixed.get_rules(agent), lower.get_rules(agent));
    }
    assert_eq!(
        mixed.get_rules("x"),
        vec![RobotRule::Allow("/b".to_string()), RobotRule::Deny("/a".to_string())]
    );
    assert_eq!(mixed.get_rules("Y"), vec![RobotRule::Deny("/C".to_string())]);
}
