[package]
name = "toro"
version = "0.1.0"
edition = "2021"
publish = false

[dependencies]
chrono = "0.4"
colored = "2"
clap = { version = "4", features = ["derive"] }
clap_complete = "4"
rustyline = "14"
regex = "1"
serde = { version = "1", features = ["derive"] }
toml = "0.8"
xdg = "2"
thiserror = "1"
