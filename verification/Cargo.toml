[package]
name = "filepager"
version = "0.1.0"
edition = "2021"
publish = false

[dependencies]
bzip2 = "*"
memmap2 = "*"
num-integer = "0.1"
regex = "1"
unicode-width = "0.1"
clap = { version = "4", features = ["derive"] }
crossterm = { version = "0.25", features = ["event-stream"] }
futures = "0.3"
human_bytes = "0.4"
lazy_static = "1"
log = "0.4"
signal-hook = "0.3"
signal-hook-async-std = "0.2"
tokio = { version = "1", features = ["full"] }
tui = "0.19"
