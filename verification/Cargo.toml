[package]
name = "std_logger_parser"
version = "0.1.0"
edition = "2021"
publish = false

[dependencies]
log = { version = "0.4", features = ["std"] }
log-panics = { version = "2", default-features = false }
