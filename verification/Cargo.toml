[package]
name = "git_toprepo"
version = "0.1.0"
edition = "2021"
publish = false

[dependencies]
anyhow = "=1.0.104"
clap = { version = "=4.6.7", features = ["derive"] }
encoding_rs = "=0.8.44"
gix-validate = "=0.13.1"
hex = "=0.4.3"
serde = { version = "1", features = ["derive"] }
sha2 = "=0.10.9"
toml = "*"
