[package]
name = "synapcmd"
version = "0.1.0"
edition = "2021"
publish = false

[dependencies]
anyhow = "*"
gix = "*"
gix-diff = "*"
regex = "*"
serde = { version = "*", features = ["derive"] }
serde_json = "*"
which = "*"
