[package]
name = "hashtable"
version = "0.1.0"
edition = "2021"
publish = false

[dependencies]
clap = { version = "*", features = ["derive"] }
hashbrown = "*"
rand = "*"
serde = { version = "*", features = ["derive"] }
serde_json = "*"
