[package]
name = "rust_projects"
version = "0.1.0"
edition = "2021"
publish = false

[dependencies]
clap = { version = "4", features = ["derive"] }
tokio = { version = "1", features = ["macros", "rt-multi-thread", "io-std"] }
tarpc = { version = "*", features = ["full"] }
malloc = "*"
