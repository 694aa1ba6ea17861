use ceridwen::clock::Interval;
use ceridwen::clock::Timestamp;
use ceridwen::config::Config;
use ceridwen::config::Ingester;
use ceridwen::error::CeridwenError;
use ceridwen::ingesters::ingester_kind;
use ceridwen::ingesters::is_due;
use ceridwen::ingesters::mark_updated;
use ceridwen::ingesters::IngesterKind;

fn ingester(name: &str, last: i128) -> Ingester {
    Ingester {
        name: name.to_string(),
        ingester_type: "rss".to_string(),
        update_interval: Interval { nanos: 100 },
        base_url: None,
        last_update: Timestamp { unix_nanos: last },
        options: Vec::new(),
    }
}

#[test]
fn kinds_of_ingesters() {
    assert_eq!(ingester_kind("rss").unwrap(), IngesterKind::Rss);
    assert_eq!(ingester_kind("wikipedia").unwrap(), IngesterKind::Wikipedia);
    assert_eq!(ingester_kind("spider").unwrap(), IngesterKind::Spider);
    match ingester_kind("telepathy") {
        Err(CeridwenError::UnknownIngester(name)) => assert_eq!(name, "telepathy"),
        other => panic!("{:?}", other),
    }
    assert!(matches!(ingester_kind("RSS"), Err(CeridwenError::UnknownIngester(_))));
}

#[test]
fn an_ingester_is_due_when_its_interval_has_passed() {
    let target = ingester("a", 1_000);
    assert!(!is_due(&target, Timestamp { unix_nanos: 1_099 }));
    assert!(is_due(&target, Timestamp { unix_nanos: 1_100 }));
    assert!(is_due(&target, Timestamp { unix_nanos: 5_000 }));
}

#[test]
fn mark_updated_changes_the_first_of_the_name() {
    let mut config = Config::default_at(Timestamp { unix_nanos: 0 });
    config.targets = vec![ingester("a", 1), ingester("b", 2), ingester("b", 3)];
    assert!(mark_updated(&mut config, "b", Timestamp { unix_nanos: 99 }));
    assert_eq!(config.targets[0].last_update, Timestamp { unix_nanos: 1 });
    assert_eq!(config.targets[1].last_update, Timestamp { unix_nanos: 99 });
    assert_eq!(config.targets[2].last_update, Timestamp { unix_nanos: 3 });
    assert!(!mark_updated(&mut config, "c", Timestamp { unix_nanos: 100 }));
    assert_eq!(config.targets[1].last_update, Timestamp { unix_nanos: 99 });
}

#[test]
fn default_configuration() {
    let now = Timestamp { unix_nanos: 1_000 * 86_400_000_000_000 };
    let config = Config::default_at(now);
    assert_eq!(config.log_level, "info");
    assert_eq!(config.server.port, 8080);
    assert_eq!(config.server.workers, 2);
    assert_eq!(config.crawler.workers, 16);
    assert_eq!(config.crawler.min_update_interval, Interval::days(1));
    assert_eq!(config.last_update, Timestamp { unix_nanos: 910 * 86_400_000_000_000 });
    assert_eq!(config.targets.len(), 2);
    assert_eq!(config.targets[0].name, "parsecsreach");
    assert_eq!(config.targets[0].ingester_type, "rss");
    assert_eq!(config.targets[0].base_url.as_deref(), Some("https://parsecsreach.org/index.xml"));
    assert_eq!(config.targets[0].update_interval, Interval::days(7));
    assert_eq!(config.targets[0].last_update, Timestamp { unix_nanos: 993 * 86_400_000_000_000 });
    assert_eq!(config.targets[1].name, "wikipedia");
    assert_eq!(config.targets[1].ingester_type, "wikipedia");
    assert_eq!(config.targets[1].base_url, None);
    assert_eq!(config.targets[1].last_update, Timestamp { unix_nanos: 910 * 86_400_000_000_000 });
    // both are due at once
    assert!(is_due(&config.targets[0], now));
    assert!(is_due(&config.targets[1], now));
    assert_eq!(Config::new().targets.len(), 2);
}
