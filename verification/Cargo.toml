[package]
name = "slot_scheduler"
version = "0.1.0"
edition = "2021"
publish = false

[dependencies]
qp-trie = "=0.8.2"
anyhow = "=1.0.104"
bytemuck = "=1.25.2"
flume = "=0.11.1"
itertools = "=0.15.0"
log = "=0.4.34"
rayon = "=1.12.0"
tokio = { version = "=1.53.2", features = ["full"] }
