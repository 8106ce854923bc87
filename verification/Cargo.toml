[package]
name = "lyric_panel"
version = "0.1.0"
edition = "2021"
publish = false

[dependencies]
image = { version = "0.25", default-features = false, features = ["png", "jpeg"] }
rusttype = "0.9"
serde = { version = "1", features = ["derive"] }
serde_json = "1"
tokio = { version = "1", features = ["rt-multi-thread", "macros", "sync", "time", "io-std", "io-util", "net", "signal"] }
axum = { version = "0.8", features = ["ws"] }
reqwest = { version = "0.12", default-features = false, features = ["json", "rustls-tls"] }
serialport = { version = "4", default-features = false }
sysinfo = "0.29"
rayon = "1"
winapi = { version = "0.3", features = ["memoryapi", "processthreadsapi", "winnt", "minwindef"] }
windows = { version = "0.58", features = ["Media_Control", "Foundation", "Foundation_Collections"] }
