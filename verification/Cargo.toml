[package]
name = "pangloss"
version = "0.1.0"
edition = "2021"
publish = false

[dependencies]
anyhow = "1"
clap = { version = "4", features = ["derive"] }
flate2 = "1"
glob = "0.3"
heck = "0.5"
indexmap = { version = "2", features = ["serde"] }
rayon = "1"
regex = "1"
ripemd = "0.1"
scraper = "*"
serde = { version = "1", features = ["derive"] }
serde_json = { version = "1", features = ["preserve_order"] }
simd-adler32 = "0.3"
tracing = "0.1"
tracing-subscriber = { version = "0.3", features = ["env-filter", "chrono"] }
zip = "*"

[dev-dependencies]
tempfile = "3"
