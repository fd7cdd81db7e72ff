[package]
name = "sensetree"
version = "0.1.0"
edition = "2021"
publish = false

[dependencies]
anyhow = "1"
async-trait = "0.1"
base64 = "=0.22.1"
fastembed = { version = "=4.9.1", default-features = false, features = ["ort-load-dynamic"] }
flate2 = "=1.1.10"
futures-util = "0.3"
image = { version = "0.25", default-features = false, features = ["jpeg", "png"] }
infer = "=0.16.0"
lopdf = { version = "=0.46.0", default-features = false }
notify-debouncer-mini = "=0.7.0"
ort = { version = "=2.0.0-rc.9", default-features = false, features = ["load-dynamic", "cuda"] }
pdf-extract = "=0.12.1"
r2d2 = "0.8"
r2d2_sqlite = "=0.35.0"
reqwest = { version = "0.12", default-features = false, features = ["json", "multipart", "stream", "blocking", "rustls-tls"] }
rusqlite = { version = "=0.40.2", features = ["bundled"] }
serde = { version = "1", features = ["derive"] }
serde_json = { version = "=1.0.154", features = ["raw_value"] }
sha2 = "=0.10.9"
tokio = { version = "1", features = ["rt-multi-thread", "macros", "sync", "time", "fs", "io-util", "process"] }
tokio-util = { version = "0.7", features = ["io"] }
tracing = "0.1"
tracing-subscriber = { version = "0.3", features = ["env-filter"] }
uuid = { version = "=1.29.0", features = ["v4"] }
walkdir = "2"
zip = { version = "=2.6.1", default-features = false, features = ["deflate"] }
