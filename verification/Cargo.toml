[package]
name = "stellaris_timer"
version = "0.1.0"
edition = "2021"
publish = false

[dependencies]
image = { version = "0.24", default-features = false, features = ["png"] }
xcb = "1.2"
leptess = "0.14"
rodio = { version = "0.17", default-features = false, features = ["wav"] }
tokio ={ version = "1", features = ["sync", "time", "rt-multi-thread", "macros"] }
meval = "0.2"
home = "0.5"
