[package]
name = "wt_blk"
version = "0.1.0"
edition = "2021"
publish = false

[dependencies]
ruzstd = "*"
rayon = "*"
serde = { version = "*", features = ["derive"] }
serde_json = "*"
thiserror = "*"
