[package]
name = "lje_launcher"
version = "0.1.0"
edition = "2021"
publish = false

[dependencies]
serde = { version = "1", features = ["derive"] }
serde_json = "1"
toml = "*"
reqwest = { version = "*", default-features = false, features = ["json"] }
windows = { version = "*", features = ["Win32_Foundation", "Win32_Security", "Win32_System_Registry", "Win32_Storage_FileSystem", "Win32_System_Diagnostics_Debug", "Win32_System_Kernel", "Win32_System_LibraryLoader", "Win32_System_Memory", "Win32_System_ProcessStatus", "Win32_System_Threading"] }
tauri = { version = "2", default-features = false }
