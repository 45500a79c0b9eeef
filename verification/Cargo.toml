[package]
name = "sloc"
version = "1.0.0"
edition = "2021"
publish = false

[dependencies]
anyhow = "1"
chrono = { version = "0.4", features = ["serde"] }
clap = { version = "4", features = ["derive"] }
colored = "2"
csv = "1"
encoding_rs = "0.8"
encoding_rs_io = "0.1"
glob = "0.3"
hex = "0.4"
human_format = "1"
indicatif = "0.17"
num_cpus = "1"
num-format = "0.4"
prettytable-rs = "0.10"
rayon = "1"
serde = { version = "1", features = ["derive"] }
serde_json = "1"
serde-xml-rs = "0.6"
sha2 = "0.10"
thiserror = "1"
toml = "0.8"
walkdir = "2"
