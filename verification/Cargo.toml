[package]
name = "kynoko_launcher"
version = "0.1.0"
edition = "2021"
publish = false

[dependencies]
image = { version = "0.25", default-features = false, features = ["png"] }
getrandom = "0.2"
serde = { version = "1", features = ["derive"] }
serde_json = "1"
ureq = { version = "2", features = ["json"] }
tiny_http = "0.12"
dirs = "5"
plist = "1"
winreg = "0.52"
windows-sys = { version = "0.59", features = ["Win32_UI_Shell", "Win32_Storage_FileSystem", "Win32_Foundation"] }
mslnk = "0.1"
core-foundation = "0.10"
