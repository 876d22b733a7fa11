[package]
name = "contextmink"
version = "0.16.0"
edition = "2021"
publish = false

[dependencies]
anyhow = "=1.0.104"
clap = { version = "=4.6.7", features = ["derive"] }
globset = "=0.4.21"
ignore = "=0.4.34"
libc = "=0.2.191"
regex = "=1.13.1"
rusqlite = { version = "=0.41.1", features = ["bundled", "functions", "hooks"] }
semver = "=1.0.28"
serde = { version = "=1.0.229", features = ["derive"] }
serde_json = { version = "=1.0.154", features = ["arbitrary_precision"] }
sha2 = "=0.11.1"
toml = "=1.1.8"
windows-sys = { version = "=0.61.2", features = ["Win32_Foundation", "Win32_Security", "Win32_Storage_FileSystem", "Win32_System_Diagnostics_ToolHelp", "Win32_System_JobObjects", "Win32_System_Threading"] }
