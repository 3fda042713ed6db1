[package]
name = "satsight"
version = "0.1.0"
edition = "2021"
publish = false

[dependencies]
batsat = "=0.6.0"
rustsat = { version = "=0.7.5", default-features = false }
rustsat-batsat = "=0.7.5"
