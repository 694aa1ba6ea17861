//! Ceridwen: the indexing and search core of a self-hosted personal search
//! engine, with every function verified against its contract.
//!
//! Pages come from ingesters (`rss_ingester`, `wikipedia`), are tokenised
//! (`text_tools`) and kept in the index (`index_sled`), which answers
//! searches with a ranking (`ranking`). What the crawler decides on the way
//! (`robots_text`, `ingesters`, `web_client`) is here as well; fetching and
//! files are left to the program around the library.

pub mod clock;
pub mod config;
pub mod data;
pub mod error;
pub mod index_laws;
pub mod ingesters;
pub mod index_sled;
pub mod keys;
pub mod page_index;
pub mod ranking;
pub mod robots_text;
pub mod rss_ingester;
pub mod store;
pub mod strings;
pub mod text_tools;
pub mod utils;
pub mod web_client;
pub mod wikipedia;
pub mod wikipedia_laws;
pub mod word_index;
