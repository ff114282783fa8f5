[package]
name = "typst_languagetool"
version = "0.1.0"
edition = "2021"
publish = false

[dependencies]
annotate-snippets = "=0.12.17"
anyhow = "=1.0.104"
chrono = { version = "=0.4.45", default-features = false, features = ["clock", "std"] }
clap = { version = "=4.6.7", features = ["derive"] }
colored = "=3.1.1"
crossbeam-channel = "=0.5.17"
dirs = "=7.0.0"
humantime-serde = "1"
languagetool-rust = { version = "=2.1.5", default-features = false }
lsp-server = "=0.7.9"
lsp-types = "=0.97.0"
percent-encoding = "=2.3.2"
serde = { version = "=1.0.229", features = ["derive"] }
serde_ignored = "=0.1.14"
serde_json = "=1.0.154"
tokio = { version = "=1.54.1", features = ["rt-multi-thread", "macros"] }
typst = "=0.14.2"
typst-kit = { version = "=0.14.2", default-features = false, features = ["fonts", "embed-fonts"] }
