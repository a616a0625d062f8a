[package]
name = "keva_core"
version = "0.1.0"
edition = "2021"
publish = false

[dependencies]
redb = "*"
postcard = { version = "1", features = ["use-std"] }
serde = { version = "1", features = ["derive"] }
serde_json = "1"
toml = "*"
blake3 = "1"
chrono = "0.4"
nucleo = "*"
nucleo-matcher = "*"
dirs = "*"
thiserror = "*"
clipboard-rs = "*"
image = { version = "*", default-features = false, features = ["png", "jpeg", "gif", "webp"] }
fast_image_resize = { version = "*", features = ["image"] }

[dev-dependencies]
tempfile = "*"
