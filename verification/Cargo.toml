[package]
name = "dist-rust-buted"
version = "0.1.0"
edition = "2021"
publish = false

[dependencies]
tonic = "0.8"
prost = "0.11"
tokio = { version = "1", features = ["full"] }
dotenv = "0.15"
futures = "0.3"
http = "0.2"
hyper = "0.14"
anyhow = "1"
thiserror = "1"
