[package]
name = "kakidashi"
version = "0.1.0"
edition = "2021"
publish = false

[dependencies]
anyhow = "=1.0.104"
aozora-core = "=0.7.1"
aozora2 = "=0.2.0"
clap = { version = "=4.6.7", features = ["derive"] }
csv = "=1.4.0"
flate2 = "=1.1.10"
inquire = "=0.9.4"
rand = "=0.9.5"
scraper = "=0.29.0"
serde = { version = "=1.0.229", features = ["derive"] }
serde_json = "=1.0.154"
# aozora-core 0.7.1 compiles against zip up to 2.4 only.
zip = "=2.4.2"
