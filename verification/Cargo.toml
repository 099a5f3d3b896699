[package]
name = "rust_analyzer_api"
version = "0.1.0"
edition = "2021"
publish = false

[dependencies]
rustc_lexer = "*"
tracing = "*"
tracing-subscriber = "*"
log = "*"
env_logger = "*"
