[package]
name = "dsd_rust"
version = "0.1.0"
edition = "2021"
publish = false

[dependencies]
anyhow = "1"
clap = { version = "4", features = ["derive"] }
claxon = "0.4"
coreaudio-sys = "0.2"
ctrlc = "3"
libc = "0.2"
ratatui = "0.29"
rtrb = "0.3"
tracing = "0.1"
tracing-subscriber = { version = "0.3", features = ["env-filter"] }
