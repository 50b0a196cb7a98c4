[package]
name = "pak_merger"
version = "0.1.0"
edition = "2021"
publish = false

[dependencies]
hex = "=0.4.3"
sha1 = "=0.10.7"
sha2 = "=0.10.9"
lz4_flex = "=0.14.0"
serde = { version = "=1.0.229", features = ["derive"] }
serde_json = "=1.0.154"
thiserror = "=2.0.21"
tempfile = "=3.27.0"
memmap2 = "=0.9.12"
fs2 = "=0.4.3"
windows-sys = { version = "=0.61.2", features = ["Win32_Foundation", "Win32_Storage_FileSystem"] }
