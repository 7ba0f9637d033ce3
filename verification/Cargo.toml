[package]
name = "vapour"
version = "0.1.0"
edition = "2021"
publish = false

[dependencies]
sled = "*"
regex = "*"
anyhow = "*"
clap = { version = "*", features = ["derive"] }
clap_complete = "*"
directories = "*"
indicatif = "*"
owo-colors = "*"
reqwest = { version = "*", default-features = false, features = ["json"] }
serde = { version = "*", features = ["derive"] }
tokio = { version = "*", features = ["macros", "rt-multi-thread"] }
tracing-subscriber = "*"
