[package]
name = "stackmerge"
version = "0.1.0"
edition = "2021"
publish = false

[dependencies]
serde_json = "*"
serde = { version = "*", features = ["derive"] }
clap = { version = "*", features = ["derive"] }
tokio = { version = "*", features = ["macros", "rt-multi-thread"] }
reqwest = { version = "*", default-features = false }
futures = "*"
chrono = "*"
get_if_addrs = "*"
inferno = "*"
thiserror = "*"
