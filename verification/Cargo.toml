[package]
name = "rss_bot"
version = "0.1.0"
edition = "2021"
publish = false

[dependencies]
sha1 = "=0.11.0"
url = "=2.5.8"
anyhow = "*"
feed-rs = "*"
reqwest = { version = "*", default-features = false, features = ["rustls-tls"] }
teloxide = { version = "*", default-features = false }
takecell = "=0.1.1"
tokio = { version = "*", features = ["macros", "rt-multi-thread", "time", "signal"] }
tracing = "*"
tracing-subscriber = { version = "*", features = ["env-filter", "json", "fmt"] }
