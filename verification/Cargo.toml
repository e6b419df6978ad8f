[package]
name = "header_completer"
version = "0.1.0"
edition = "2021"
publish = false

[dependencies]
glob = "0.3"
clang = { version = "2", features = ["clang_10_0", "runtime"] }
serde = { version = "1", features = ["derive"] }
serde_json = "1"
clap = { version = "4", features = ["derive"] }
