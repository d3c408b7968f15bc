[package]
name = "memcard_sync"
version = "0.1.0"
edition = "2021"
publish = false

[dependencies]
sqlite = "*"
clap = { version = "*", features = ["derive"] }
thiserror = "*"
main_error = "*"
