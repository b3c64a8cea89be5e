[package]
name = "run_on_filechange"
version = "0.1.0"
edition = "2021"
publish = false

[dependencies]
chrono = "*"
nix = { version = "*", features = ["signal"] }
notify = "*"
