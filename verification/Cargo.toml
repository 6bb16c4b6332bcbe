[package]
name = "rusttimeanddatedotcomparser"
version = "0.1.0"
edition = "2021"
publish = false

[dependencies]
chrono = "=0.4.45"
http = "=1.5.0"
serde = { version = "=1.0.229", features = ["derive"] }
html5ever = "=0.39.0"
markup5ever = "=0.39.0"
markup5ever_rcdom = "=0.39.0"
surf = "=2.3.2"
mongodb = "=3.2.5"
tokio = { version = "=1.53.2", features = ["macros", "rt-multi-thread"] }
