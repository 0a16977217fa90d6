[package]
name = "map_tester"
version = "0.1.0"
edition = "2021"
publish = false

[dependencies]
bytes = "0.4"
flate2 = "1"
time = "0.1"
uuid = { version = "0.8", features = ["v4"] }
xml-rs = "0.8"
tokio = "0.1"
futures = "0.1"
glob = "0.3"
log = "0.4"
