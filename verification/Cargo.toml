[package]
name = "no_std_tool"
version = "0.1.0"
edition = "2021"
publish = false

[dependencies]
ahash = "*"
hashbrown = "*"
heapless = "*"
lazy_static = "*"
rkyv = "*"
serde = { version = "*", features = ["derive"] }
