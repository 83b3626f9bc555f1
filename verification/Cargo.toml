[package]
name = "logtail"
version = "0.1.0"
edition = "2021"
publish = false

[dependencies]
anyhow = "=1.0.104"
crossterm = { version = "=0.25.0", features = ["event-stream"] }
futures = "=0.3.34"
notify = "=5.2.0"
tokio = { version = "=1.53.2", features = ["macros", "rt-multi-thread", "sync"] }
tui = "=0.19.0"
