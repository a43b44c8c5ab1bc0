[package]
name = "ovoice"
version = "0.1.0"
edition = "2021"
publish = false

[dependencies]
async-trait = "=0.1.92"
base64 = "=0.22.1"
bytes = "=1.12.1"
dotenvy = "=0.15.7"
futures-util = "=0.3.34"
kill_tree = "=0.2.4"
pdf-extract = "=0.7.12"
percent-encoding = "=2.3.2"
quick-xml = "=0.37.5"
reqwest = { version = "=0.12.28", default-features = false, features = ["json", "stream", "rustls-tls"] }
serde = { version = "=1.0.229", features = ["derive"] }
serde_json = "=1.0.154"
thiserror = "=1.0.69"
tokio = { version = "=1.54.1", features = ["rt-multi-thread", "macros", "fs", "io-util", "process", "sync", "time"] }
tokio-util = "=0.7.20"
uuid = { version = "=1.29.0", features = ["v4"] }
windows-sys = { version = "=0.61.2", features = ["Win32_System_Time", "Win32_UI_Input_KeyboardAndMouse"] }
zip = { version = "=2.6.1", default-features = false, features = ["deflate"] }
