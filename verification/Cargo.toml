[package]
name = "rsomics-boschloo-exact"
version = "0.1.0"
edition = "2021"
publish = false

[dependencies]
clap = { version = "=4.6.7", features = ["derive"] }
libm = "=0.2.16"
rsomics-common = "=0.11.1"
ryu = "=1.0.23"
serde = { version = "=1.0.229", features = ["derive"] }
