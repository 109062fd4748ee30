[package]
name = "base64_etna"
version = "0.1.0"
edition = "2021"
publish = false

[dependencies]
crabcheck = "0.2"
hegeltest = "0.3.7"
proptest = "1"
rand = "0.9"
