[package]
name = "rattler_installs_packages"
version = "0.1.0"
edition = "2021"
publish = false

[dependencies]
zip = { version = "*", default-features = false, features = ["deflate", "time"] }
cacache = { version = "*", default-features = false, features = ["tokio-runtime", "mmap"] }
rattler_digest = "*"
data-encoding = "*"
pep440_rs = "*"
pep508_rs = "*"
serde_json = "*"
tempfile = "*"
parking_lot = "*"
tokio = { version = "*", features = ["rt-multi-thread", "macros", "sync", "process", "fs", "io-util", "time"] }
tokio-util = { version = "*", features = ["compat"] }
async_zip = { version = "*", features = ["tokio", "deflate"] }
async_http_range_reader = "*"
