[package]
name = "libsearch"
version = "0.1.0"
edition = "2021"
publish = false

[dependencies]
regex = "=1.13.1"
serde_json = "=1.0.154"
quick-xml = { version = "=0.38.4", features = ["encoding"] }
scraper = "=0.29.0"
html5ever = "=0.40.1"
html2text = "=0.17.4"
rtf-parser = "=0.4.3"
encoding_rs = "=0.8.44"
chardetng = "=0.1.17"
anyhow = "1"
thiserror = "2"
serde = { version = "1", features = ["derive"] }
toml = "0.9"
rusqlite = { version = "0.37", features = ["bundled"] }
lopdf = "=0.38.0"
zip = { version = "=7.4.0", default-features = false, features = ["deflate"] }
plist = "=1.10.3"
rbook = "=0.6.12"
mobi = "=0.8.0"
reqwest = { version = "0.12", default-features = false, features = ["json", "stream", "rustls-tls"] }
tokio = { version = "1", features = ["full"] }
futures = "0.3"
log = "0.4"
arrow-array = "=60.1.0"
arrow-schema = "=60.1.0"
parquet = { version = "=60.1.0", default-features = false, features = ["arrow"] }
ndarray = "0.16"
ort = { version = "=2.0.0-rc.9", default-features = false, features = ["ndarray", "load-dynamic"] }
tokenizers = { version = "=0.23.2", default-features = false, features = ["fancy-regex"] }
ort-sys = { version = "=2.0.0-rc.9", default-features = false }
