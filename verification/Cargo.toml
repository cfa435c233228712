[package]
name = "fixme_report"
version = "0.1.0"
edition = "2021"
publish = false

[dependencies]
glob = "=0.3.4"
linkify = "=0.11.0"
maud = "=0.27.0"
octocrab = "=0.47.1"
tokio = { version = "=1.54.1", features = ["rt-multi-thread"] }

[dev-dependencies]
regex = "=1.13.1"
