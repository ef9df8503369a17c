[package]
name = "foil"
version = "0.1.0"
edition = "2021"
publish = false

[dependencies]
anyhow = "=1.0.104"
clap = { version = "=4.6.7", features = ["derive", "string"] }
ctrlc = "=3.5.2"
indicatif = "=0.18.6"
rand = "=0.10.3"
rand_distr = "=0.6.0"
rustix = { version = "=1.1.6", features = ["event", "fs", "pipe", "process"] }
serde = { version = "=1.0.229", features = ["derive"] }
serde_json = "=1.0.154"
tempfile = "=3.27.0"
toml = { version = "=1.1.8", features = ["preserve_order"] }
windows-sys = { version = "=0.61.2", features = ["Win32_Foundation", "Win32_Globalization", "Win32_Security", "Win32_Storage_FileSystem", "Win32_System_JobObjects", "Win32_System_Threading"] }
