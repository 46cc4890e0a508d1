[package]
name = "turso_dump"
version = "0.1.0"
edition = "2021"
publish = false

[dependencies]
anyhow = "1"
rustyline = "*"
tokio = { version = "1", features = ["macros", "rt-multi-thread"] }
turso = "*"
