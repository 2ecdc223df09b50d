[package]
name = "teams-core"
version = "0.1.0"
edition = "2021"
publish = false

[dependencies]
snap = "1"
hmac = "0.12"
sha1 = "0.10"
aes = "0.8"
cbc = { version = "0.1", features = ["alloc"] }
aes-gcm = "0.10"
base64 = "0.22"
serde = { version = "1", features = ["derive"] }
serde_json = "1"
thiserror = "2"
arboard = { version = "3", default-features = false }
rusqlite = { version = "*", features = ["bundled"] }
ureq = "2"
rmcp = { version = "*", features = ["server", "transport-io", "transport-streamable-http-server"] }
schemars = "1"
tokio = { version = "1", features = ["full"] }
axum = "0.8"
tracing = "0.1"
tracing-subscriber = "0.3"
anyhow = "1"
windows-sys = { version = "*", features = ["Win32_Security_Cryptography", "Win32_Foundation"] }
