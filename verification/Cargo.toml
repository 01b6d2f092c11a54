[package]
name = "logbook"
version = "0.5.1"
edition = "2021"
publish = false

[dependencies]
chrono = { version = "=0.4.45", default-features = false, features = ["clock", "std"] }
clap = { version = "=4.6.7", features = ["derive"] }
clap_complete = "=4.6.11"
thiserror = "=2.0.21"
