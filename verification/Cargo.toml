[package]
name = "depx"
version = "0.1.0"
edition = "2021"
rust-version = "1.95"
publish = false

[dependencies]
petgraph = "=0.8.3"
semver = "=1.0.28"
clap = { version = "4", features = ["derive"] }
colored = "3"
ignore = "0.4"
miette = { version = "7", features = ["fancy"] }
oxc_allocator = "0.72"
oxc_ast = "0.72"
oxc_parser = "0.72"
oxc_span = "0.72"
serde = { version = "1", features = ["derive"] }
serde_json = "1"
tokio = { version = "1", features = ["macros", "rt-multi-thread"] }
toml = "1"
