[package]
name = "torrent_reader"
version = "0.1.0"
edition = "2021"
publish = false

[dependencies]
sha1 = "0.10"
url = "2"
tokio = { version = "1", features = ["full"] }
tokio-util = { version = "0.7", features = ["codec"] }
futures-util = { version = "0.3", features = ["sink"] }
reqwest = { version = "0.12", default-features = false }
clap = { version = "4", features = ["derive"] }
tracing = "0.1"

[dev-dependencies]
winnow = "0.7"
