[package]
name = "libgitdit"
version = "0.1.0"
edition = "2021"
publish = false

[dependencies]
atty = "0.2"
chrono = { version = "0.4", default-features = false, features = ["std"] }
clap = { version = "2", default-features = false }
git2 = { version = "0.18", default-features = false }
log = "0.4"
