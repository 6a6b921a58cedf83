[package]
name = "hazir"
version = "0.1.0"
edition = "2021"
publish = false

[dependencies]
clap = { version = "4", features = ["derive"] }
sha2 = "0.10"
tokio = { version = "1", features = ["macros", "process", "rt", "rt-multi-thread", "sync", "time"] }
tokio-postgres = "0.7"
