[package]
name = "group_hash"
version = "0.1.0"
edition = "2021"
publish = false

[dependencies]
ahash = "0.8"
arrow = { version = "43.0.0", default-features = false }
chrono = { version = "=0.4.31", default-features = false }
futures = "0.3"
hashbrown = "0.14.5"
log = "0.4"
