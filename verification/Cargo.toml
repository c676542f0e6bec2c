[package]
name = "feedbinctl"
version = "0.1.0"
edition = "2021"
publish = false

[dependencies]
anyhow = "=1.0.104"
clap = { version = "=4.6.7", features = ["derive"] }
keyring = { version = "=3.6.3", default-features = false }
owo-colors = "=4.4.0"
reqwest = { version = "=0.13.5", default-features = false, features = ["json"] }
rpassword = "=7.5.4"
serde = { version = "=1.0.229", features = ["derive"] }
tokio = { version = "=1.53.2", features = ["macros", "rt-multi-thread", "fs"] }
