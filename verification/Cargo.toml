[package]
name = "madison_rs"
version = "0.1.0"
edition = "2021"
publish = false

[dependencies]
anyhow = "*"
deb-version = "*"
fapt = "*"
figment = { version = "*", features = ["toml"] }
log = "*"
rayon = "*"
serde = { version = "*", features = ["derive"] }
tabled = "*"
tokio = { version = "*", features = ["macros", "rt-multi-thread", "time"] }
