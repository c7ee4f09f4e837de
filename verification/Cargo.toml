[package]
name = "rehydrate"
version = "0.1.0"
edition = "2021"
publish = false

[dependencies]
async-trait = "=0.1.92"
fs4 = "=1.1.0"
hf-hub = { version = "=0.5.0", default-features = false, features = ["ureq", "rustls-tls"] }
image = { version = "=0.25.10", default-features = false, features = ["png"] }
imageproc = { version = "=0.25.1", default-features = false }
rusqlite = { version = "=0.41.1", features = ["bundled"] }
russh = { version = "=0.65.0", default-features = false, features = ["ring"] }
russh-sftp = "=2.4.0"
secrecy = "=0.10.3"
serde = { version = "=1.0.229", features = ["derive"] }
serde_json = "=1.0.154"
sha2 = "=0.11.1"
tempfile = "=3.27.0"
thiserror = "=2.0.21"
time = { version = "=0.3.55", features = ["formatting"] }
tokio = { version = "=1.54.1", features = ["full"] }
tracing = "=0.1.44"
uuid = { version = "=1.29.0", features = ["v4"] }
