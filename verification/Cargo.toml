[package]
name = "port_proxy"
version = "0.1.0"
edition = "2021"
publish = false

[dependencies]
futures = "0.3"
itertools = "0.10"
rand = "0.8"
shiplift = "0.7"
tokio = { version = "1", features = ["full"] }
