[package]
name = "disktree"
version = "0.1.0"
edition = "2021"
publish = false

[dependencies]
anyhow = "1"
rayon = "1"
rustc-hash = "2"
windows-sys = { version = "0.61", features = ["Win32_System_Console"] }

[dev-dependencies]
tempfile = "3"
