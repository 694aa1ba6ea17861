[package]
name = "ceridwen"
version = "0.1.0"
edition = "2021"
publish = false

[dependencies]
actix-files = "0.6"
actix-web = { version = "4", default-features = false, features = ["macros"] }
anyhow = "1"
bytes = "1"
bzip2 = "0.4"
flume = "0.11"
hex = "=0.4.3"
home = "0.5"
humansize = "2"
log = "0.4"
log4rs = "1"
quick-xml = "=0.31.0"
reqwest = "0.11"
rss = "=2.1.2"
serde = { version = "1", features = ["derive"] }
serde_json = "=1.0.154"
sha3 = "=0.10.9"
sled = "=0.34.7"
tera = { version = "1", default-features = false }
thiserror = "1"
time = { version = "=0.3.55", features = ["formatting", "parsing", "serde", "macros"] }
tokio = { version = "1", features = ["full"] }
toml = "0.8"
url = "=2.5.8"
