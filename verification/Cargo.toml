[package]
name = "fuzz_ci"
version = "0.1.0"
edition = "2021"
publish = false

[dependencies]
chrono = "=0.4.45"
percent-encoding = "=2.3.2"
sanitize-filename = "=0.6.0"
url = "=2.5.8"
tokio = { version = "=1.53.2", features = ["full"] }
warp = { version = "=0.4.3", features = ["server"] }
serde = { version = "=1.0.229", features = ["derive"] }
serde_json = "=1.0.151"
toml = "=1.1.6"
handlebars = "=6.4.4"
reqwest = { version = "=0.13.5", default-features = false, features = ["json"] }
clap = "=4.6.7"
