[package]
name = "octobacillus"
version = "0.1.0"
edition = "2021"
publish = false

[dev-dependencies]
greetd_ipc = { version = "*", features = ["sync-codec"] }
