[package]
name = "serve_md"
version = "0.1.0"
edition = "2021"
publish = false

[dependencies]
percent-encoding = "2"
pulldown-cmark = { version = "0.9", default-features = false }
mime_guess = "2"
axum = "0.7"
tokio = { version = "1", features = ["macros", "rt-multi-thread", "net", "fs", "signal"] }
tower-http = { version = "0.5", features = ["timeout"] }
tracing = "0.1"
tracing-subscriber = { version = "0.3", features = ["env-filter"] }
clap = { version = "4", features = ["derive"] }
ignore = "0.4"
open = "5"
anyhow = "1"
thiserror = "1"
