[package]
name = "mangochill"
version = "0.1.0"
edition = "2021"
publish = false

[dependencies]
anyhow = "1"
capnp = "*"
capnp-rpc = "*"
chrono = { version = "0.4", features = ["serde"] }
clap = { version = "4", features = ["derive"] }
clap-verbosity-flag = "3"
futures = "0.3"
js-sys = "0.3"
libc = "0.2"
log = "0.4"
nix = { version = "*", features = ["ioctl"] }
regex = "1"
serde = { version = "1", features = ["derive"] }
serde_json = "1"
tokio = { version = "1", features = ["full"] }
tokio-stream = { version = "0.1", features = ["net"] }
tokio-util = { version = "0.7", features = ["compat", "rt"] }
tracing = "0.1"
wasm-bindgen = "0.2"
wayland-client = "0.31"
wayland-scanner = "0.31"
