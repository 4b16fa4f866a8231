[package]
name = "pmg"
version = "0.1.0"
edition = "2021"
publish = false

[dependencies]
anyhow = "1"
argmin = { version = "0.8", default-features = false }
argmin-math = "0.3"
clap = { version = "4", features = ["derive"] }
csv = "1"
indoc = "2"
libm = "0.2"
serde = { version = "1", features = ["derive"] }
