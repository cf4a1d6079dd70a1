[package]
name = "los_checker"
version = "0.1.0"
edition = "2021"
publish = false

[dependencies]
clap = { version = "4", features = ["derive"] }
csv = "1"
dialoguer = "*"
humansize = "2"
image = { version = "0.25", default-features = false, features = ["png"] }
indicatif = { version = "*", features = ["rayon"] }
num-traits = "0.2"
rayon = "1"
reqwest = { version = "0.12", default-features = false, features = ["rustls-tls"] }
serde = { version = "1", features = ["derive"] }
tiff = "*"
tokio = { version = "1", features = ["full"] }
