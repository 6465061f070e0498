[package]
name = "eva"
version = "0.1.0"
edition = "2021"
publish = false

[dependencies]
app_dirs = "1"
chrono = "0.4"
clap = "2"
config = { version = "0.9", default-features = false, features = ["toml"] }
diesel = { version = "1.4", default-features = false, features = ["sqlite"] }
failure = "0.1"
itertools = "0.10"
shellexpand = "1"
