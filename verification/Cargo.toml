[package]
name = "execsnoop"
version = "0.1.0"
edition = "2021"
publish = false

[dependencies]
anyhow = "=1.0.104"
aya = { version = "=0.12.0", features = ["async_tokio"] }
bytes = "=1.12.1"
clap = { version = "=4.6.7", features = ["derive"] }
libc = "=0.2.190"
time = { version = "=0.3.55", features = ["formatting", "macros", "local-offset"] }
tokio = { version = "=1.53.2", features = ["rt", "macros", "signal"] }
