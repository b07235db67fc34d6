[package]
name = "actiowatch"
version = "0.1.0"
edition = "2021"
publish = false

[dependencies]
libc = "=0.2.191"
listeners = "=0.2.1"
nix = { version = "=0.29.0", features = ["sched"] }
serde = { version = "=1.0.229", features = ["derive"] }
sysinfo = "=0.30.13"
tokio = { version = "=1.54.1", features = ["time"] }
windows = { version = "=0.58.0", features = ["Win32_Foundation", "Win32_System_ProcessStatus", "Win32_System_Threading"] }
