[package]
name = "quixote"
version = "0.1.0"
edition = "2021"
publish = false

[dependencies]
anyhow = "*"
clap = { version = "*", features = ["derive"] }
glob = "*"
pager = "*"
pulldown-cmark = "*"
rand = "*"

[dev-dependencies]
serde_json = "*"
