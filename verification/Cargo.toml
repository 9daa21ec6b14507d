[package]
name = "csa"
version = "0.1.0"
edition = "2021"
publish = false

[dependencies]
chrono = { version = "0.4", default-features = false, features = ["std", "clock"] }
serde = { version = "1", features = ["derive"] }
serde_json = "1"
csv = "1"
structopt = "0.3"
actix-web = { version = "4", default-features = false, features = ["macros"] }
actix-rt = "2"
cpuprofiler = "0.0.4"
itertools = "0.10"
