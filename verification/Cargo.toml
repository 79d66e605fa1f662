[package]
name = "uicore"
version = "0.1.0"
edition = "2021"
publish = false

[dependencies]
slab = "0.4"
smallvec = "1"
unicode-segmentation = "1"
scopeguard = "1"
futures = "0.3"
futures-util = "0.3"
kurbo = "0.11"
keyboard-types = "0.7"
winit = { version = "0.29", default-features = false, features = ["x11", "rwh_06"] }
raw-window-handle = "0.6"
anyhow = "1"
imbl = "*"
tokio = { version = "1", features = ["sync"] }
scoped-tls = "1"
