[package]
name = "dns_blocklist_compiler"
version = "0.1.0"
edition = "2021"
publish = false

[dependencies]
serde = { version = "1", features = ["derive"] }
serde_json = "1"
rayon = "1"
ureq = "3"
flate2 = "1"
sha2 = "0.10"
