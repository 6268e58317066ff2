[package]
name = "locales"
version = "0.1.0"
edition = "2021"

[dependencies]
glob = "0.3"
lazy_static = "1"
proc-macro2 = "1"
quote = "1"
serde_json = "1"
