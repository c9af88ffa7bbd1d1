[package]
name = "lime_rtw"
version = "0.4.0"
edition = "2021"
publish = false

[dependencies]
index_list = "0.2"
min-max-heap = "1.3"
serde = { version = "1", features = ["derive"] }
serde_json = "1"
clap = { version = "4", features = ["derive"] }
glob = "0.3"
time = { version = "0.3", features = ["formatting", "local-offset", "macros", "parsing"] }
anyhow = "1"
