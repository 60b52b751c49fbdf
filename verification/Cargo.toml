[package]
name = "bug_graph"
version = "0.1.0"
edition = "2021"
publish = false

[dependencies]
indradb-lib = "=5.0.0"
uuid = { version = "=1.29.0", features = ["v4"] }
serde = { version = "1.0.229", features = ["derive"] }
serde_json = "1.0.154"
clap = "4.6.7"
log = "0.4.34"
actix = "0.13.5"
actix-web = "4.18.1"
actix-web-actors = "=4.3.1"
futures = "0.3.34"
failure = "0.1.8"
