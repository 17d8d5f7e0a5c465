[package]
name = "kickoff"
version = "0.1.0"
edition = "2021"
publish = false

[dependencies]
fuzzy-matcher = "=0.3.7"
shellwords = "=1.1.0"
clap = "=2.34.0"
css-color = "=0.1.1"
exec = "=0.3.1"
fontconfig = "=0.11.0"
fontdue = "=0.7.3"
image = { version = "=0.23.14", default-features = false }
log = "=0.4.34"
nix = "=0.23.2"
notify-rust = "=4.18.2"
serde = { version = "=1.0.229", features = ["derive"] }
simplelog = "=0.12.2"
smithay-client-toolkit = "=0.15.4"
tokio = { version = "=1.54.1", features = ["rt-multi-thread", "macros", "time"] }
toml = "0.5"
