[package]
name = "p3p"
version = "0.1.0"
edition = "2021"
publish = false

[dependencies]
rand = "0.10"
thiserror = "2"
tokio = { version = "1", features = ["rt-multi-thread", "macros", "net", "time"] }
async-trait = "0.1"
