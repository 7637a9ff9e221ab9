[package]
name = "crimson"
version = "0.1.0"
edition = "2021"
publish = false

[dependencies]
anyhow = "1"
clap = { version = "4", features = ["derive"] }
dotenvy = "0.15"
postgres = { version = "0.19", features = ["with-time-0_3"] }
reqwest = { version = "0.12", features = ["blocking", "json"] }
serde = { version = "1", features = ["derive"] }
time = { version = "0.3", features = ["formatting", "macros", "parsing"] }
