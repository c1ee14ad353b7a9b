[package]
name = "cts"
version = "0.1.0"
edition = "2021"
publish = false

[dependencies]
anyhow = "1"
log = "0.4"
pico-args = { version = "0.5", features = ["eq-separator", "short-space-opt", "combined-flags"] }
regex-lite = "0.1"
xshell = "0.2"
