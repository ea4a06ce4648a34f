[package]
name = "dyto_scene"
version = "0.1.0"
edition = "2021"
publish = false

[dependencies]
bevy = { version = "=0.17.3", default-features = false, features = ["std", "bevy_pbr", "bevy_window", "bevy_log"] }
big_space = { version = "=0.11.0", default-features = false, features = ["std"] }
crossbeam-channel = "=0.5.17"
js-sys = "=0.3.107"
wasm-bindgen = "=0.2.130"
log = "=0.4.35"
