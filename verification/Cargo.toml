[package]
name = "argus"
version = "0.1.0"
edition = "2021"
publish = false

[dependencies]
anyhow = "1"
chrono = "0.4"
once_cell = "1"
serde = { version = "1", features = ["derive"] }
serde_json = "1"
sysinfo = "0.33"
rayon = "1"
num_cpus = "1"
ctrlc = "3"
ratatui = "0.29"
crossterm = "0.28"
axum = { version = "0.6", features = ["ws"] }
tokio = { version = "1", features = ["rt-multi-thread", "sync", "signal", "macros"] }
tower-http = { version = "0.4", features = ["cors"] }
futures = "0.3"
windows = { version = "0.58", features = ["Win32_Foundation", "Win32_System_Threading", "Win32_System_Diagnostics_ToolHelp", "Win32_System_ProcessStatus"] }
