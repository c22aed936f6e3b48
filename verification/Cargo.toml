[package]
name = "nvme-trace"
version = "0.1.0"
edition = "2021"
publish = false

[dependencies]
anyhow = "1"
clap = { version = "4", features = ["derive"] }
humantime = "2"
libc = "0.2"
nix = { version = "0.29", features = ["fs", "poll", "process", "sched"] }
signal-hook = "0.3"
