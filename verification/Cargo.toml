[package]
name = "triangulation"
version = "0.1.0"
edition = "2021"
publish = false

[dependencies]
anyhow = "*"
chrono = "0.4"
clap = "*"
csv = "*"
data-encoding = "*"
image = "*"
num-bigint = "*"
num-integer = "*"
num-traits = "*"
qrcode = "*"
rand = "*"
reqwest = { version = "*", default-features = false, features = ["blocking"] }
serde = { version = "*", features = ["derive"] }
toml = "*"
xml-rs = "*"
