[package]
name = "enso-channel"
version = "0.1.1"
edition = "2021"
publish = false

[dependencies]
atomic-waker = "1.1"
crossbeam-utils = "0.8"
thiserror = "2"
