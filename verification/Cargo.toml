[package]
name = "clipstack"
version = "0.1.0"
edition = "2021"
publish = false

[dependencies]
sha2 = "0.10"
image = { version = "0.25", default-features = false, features = ["png"] }
rusqlite = "0.32"
serde = { version = "1", features = ["derive"] }
serde_json = "1"
arboard = { version = "3", default-features = false }
dirs = "5"
windows-sys = { version = "0.59", features = ["Win32_UI_Input_KeyboardAndMouse"] }
