[package]
name = "protocol_infer_core"
version = "0.1.0"
edition = "2021"
publish = false

[dependencies]
flate2 = "1"
serde = { version = "1", features = ["derive"] }
serde_json = "1"
rayon = "1"
anyhow = "1"
thiserror = "*"
clap = { version = "4", features = ["derive"] }
pcap-parser = "*"
etherparse = "*"
tracing = "0.1"
tracing-subscriber = "0.3"
