//! The configuration of the engine.

use vstd::prelude::*;
use crate::clock::Interval;
use crate::clock::Timestamp;

verus! {

/// The settings of the web server.
#[derive(Debug, Clone)]
pub struct Server {
    /// The network port that the server listens on.
    pub port: u16,
    /// The number of server workers. Two are more than enough for most
    /// households.
    pub workers: usize,
}

/// The settings of the crawler.
#[derive(Debug, Clone)]
pub struct Crawler {
    /// The number of workers that index pages side by side.
    pub workers: usize,
    /// The least time before the crawler looks at a page again.
    pub min_update_interval: Interval,
}

/// A source of pages and when it is to be read.
#[derive(Debug, Clone)]
pub struct Ingester {
    /// The name, which no other ingester has.
    pub name: String,
    /// `rss`, `wikipedia` or `spider`.
    pub ingester_type: String,
    /// The time between two runs.
    pub update_interval: Interval,
    /// Where the source is found; `rss` and `spider` need it.
    pub base_url: Option<String>,
    /// When the ingester last ran to its end.
    pub last_update: Timestamp,
    /// Further settings, each a name and a value.
    pub options: Vec<(String, String)>,
}

/// The whole configuration.
#[derive(Debug, Clone)]
pub struct Config {
    pub targets: Vec<Ingester>,
    pub log_level: String,
    pub server: Server,
    pub crawler: Crawler,
    pub last_update: Timestamp,
}

/// Whether a configuration is the one that is written where there is none,
/// at the instant `now`: an RSS feed that is due at once, the English
/// Wikipedia, which is long overdue, the server on port 8080 with two
/// workers, and a crawler with sixteen workers that looks at a page once a
/// day at most.
pub open spec fn is_default_at(config: Config, now: Timestamp) -> bool {
    &&& config.targets.len() == 2
    &&& config.targets[0].name@ == "parsecsreach"@
    &&& config.targets[0].ingester_type@ == "rss"@
    &&& config.targets[0].update_interval == Interval::spec_days(7)
    &&& config.targets[0].base_url matches Some(url) && url@
        == "https://parsecsreach.org/index.xml"@
    &&& config.targets[0].last_update == now.spec_minus(Interval::spec_days(7))
    &&& config.targets[0].options.len() == 0
    &&& config.targets[1].name@ == "wikipedia"@
    &&& config.targets[1].ingester_type@ == "wikipedia"@
    &&& config.targets[1].update_interval == Interval::spec_days(7)
    &&& config.targets[1].base_url is None
    &&& config.targets[1].last_update == now.spec_minus(Interval::spec_days(90))
    &&& config.targets[1].options.len() == 0
    &&& config.log_level@ == "info"@
    &&& config.server.port == 8080
    &&& config.server.workers == 2
    &&& config.crawler.workers == 16
    &&& config.crawler.min_update_interval == Interval::spec_days(1)
    &&& config.last_update == now.spec_minus(Interval::spec_days(90))
}

impl Config {
    /// The configuration that is written where there is none, at the instant
    /// `now`.
    pub fn default_at(now: Timestamp) -> (config: Config)
        ensures
            is_default_at(config, now),
    {
        let feed = Ingester {
            name: "parsecsreach".to_string(),
            ingester_type: "rss".to_string(),
            update_interval: Interval::days(7),
            base_url: Some("https://parsecsreach.org/index.xml".to_string()),
            last_update: now.minus(Interval::days(7)),
            options: Vec::new(),
        };
        let wikipedia = Ingester {
            name: "wikipedia".to_string(),
            ingester_type: "wikipedia".to_string(),
            update_interval: Interval::days(7),
            base_url: None,
            last_update: now.minus(Interval::days(90)),
            options: Vec::new(),
        };
        let mut targets: Vec<Ingester> = Vec::new();
        targets.push(feed);
        targets.push(wikipedia);
        Config {
            targets,
            log_level: "info".to_string(),
            server: Server { port: 8080, workers: 2 },
            crawler: Crawler { workers: 16, min_update_interval: Interval::days(1) },
            last_update: now.minus(Interval::days(90)),
        }
    }

    /// The configuration that is written where there is none, as of now.
    pub fn new() -> (config: Config)
        ensures
            exists|now: Timestamp| is_default_at(config, now),
    {
        Config::default_at(Timestamp::now())
    }
}

} // verus!
