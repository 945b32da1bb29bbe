[package]
name = "kvstore"
version = "0.1.0"
edition = "2021"
publish = false

[dependencies]
sha1 = "0.10"
smallvec = "1"
fnv = "1"
tokio = { version = "1", features = ["net", "io-util", "rt-multi-thread", "macros", "time", "sync"] }
clap = { version = "4", features = ["derive"] }

[dev-dependencies]
rmp-serde = "1"
serde = "1"
