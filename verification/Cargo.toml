[package]
name = "wbi_rs"
version = "0.1.0"
edition = "2021"
publish = false

[dependencies]
anyhow = "1"
clap = { version = "4", features = ["derive"] }
csv = "1"
num-format = "0.4"
percent-encoding = "2"
plotters = { version = "0.3", default-features = false, features = ["ab_glyph", "all_series", "all_elements"] }
plotters-bitmap = "0.3"
plotters-svg = "0.3"
reqwest = { version = "0.12", default-features = false, features = ["blocking", "json", "rustls-tls"] }
serde = { version = "1", features = ["derive"] }
serde_json = "1"
tempfile = "3"
