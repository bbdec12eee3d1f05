[package]
name = "fuzz_coverage"
version = "0.1.0"
edition = "2021"
publish = false

[dependencies]
actix-cors = "0.7"
actix-web = "4"
addr2line = { version = "*", features = ["loader"] }
chrono = "0.4"
glob = "0.3"
rangemap = "1"
ron = "*"
serde = { version = "1", features = ["derive"] }
serde_json = "1"
