[package]
name = "bandrec"
version = "0.1.0"
edition = "2021"
publish = false

[dependencies]
actix-web = { version = "4", default-features = false, features = ["macros"] }
clap = { version = "4", features = ["derive"] }
mime = "0.3"
reqwest = { version = "0.12", default-features = false }
serde = { version = "1", features = ["derive"] }
serde_json = "1"
snafu = "0.8"
soup = "0.5"
tokio = { version = "1", features = ["macros", "rt-multi-thread", "time"] }
