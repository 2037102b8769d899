[package]
name = "limae"
version = "0.1.0"
edition = "2021"
publish = false

[dependencies]
clap = "4"
getrandom = "0.3"
globset = "*"
ignore = "*"
regex = "1"
rustix = { version = "*", features = ["fs", "process", "std"] }
serde_json = "1"
soft-canonicalize = "*"
thiserror = "*"
toml = "*"
