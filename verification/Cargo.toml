[package]
name = "bittorrent"
version = "0.1.0"
edition = "2021"
publish = false

[dependencies]
sha1 = "=0.10.7"
bitvec = "=1.1.1"
url = "=2.5.8"
hex = "=0.4.3"
chrono = "=0.4.45"
urlencoding = "=2.1.3"
rand = "=0.8.8"
lru = "=0.12.5"
thiserror = "=1.0.69"
tokio = { version = "=1.54.1", features = ["rt-multi-thread", "macros", "net", "sync", "time", "io-util"] }
tracing = "=0.1.44"
tracing-subscriber = "=0.3.23"
async-trait = "=0.1.92"
reqwest = { version = "=0.11.27", default-features = false }
