[package]
name = "riverdeck_core"
version = "0.1.0"
edition = "2021"
publish = false

[dependencies]
anyhow = "=1.0.104"
base64 = "=0.22.1"
directories = "=6.0.0"
elgato-streamdeck = { version = "=0.12.1", features = ["async"] }
font8x8 = "=0.3.1"
fs2 = "=0.4.3"
futures-util = { version = "=0.3.34", features = ["sink"] }
getrandom = "=0.2.17"
image = { version = "=0.25.10", default-features = false, features = ["bmp", "dds", "exr", "ff", "gif", "hdr", "ico", "jpeg", "png", "pnm", "qoi", "tga", "tiff", "webp"] }
libc = "=0.2.191"
log = "=0.4.35"
open = "=5.4.5"
reqwest = { version = "=0.12.28", default-features = false, features = ["json"] }
resvg = "=0.49.0"
semver = "=1.0.28"
serde = { version = "=1.0.229", features = ["derive"] }
serde_json = "=1.0.154"
tiny_http = "=0.12.0"
tokio = { version = "=1.54.1", features = ["rt-multi-thread", "net", "fs", "sync", "time", "macros", "process", "io-util"] }
tokio-tungstenite = "=0.30.0"
urlencoding = "=2.1.3"
