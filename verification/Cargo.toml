[package]
name = "discovery"
version = "0.1.0"
edition = "2021"
publish = false

[dependencies]
bincode = "=1.3.3"
bytes = "=0.4.12"
fnv = "=1.0.7"
futures = "=0.1.31"
log = "=0.4.35"
rand = "=0.6.5"
tokio = "=0.1.22"
tokio-yamux = "=0.1.14"
