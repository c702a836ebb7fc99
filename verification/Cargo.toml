[package]
name = "forge_core"
version = "0.1.0"
edition = "2021"
publish = false

[dependencies]
mlua = { version = "*", features = ["lua54", "vendored"] }
pcre2 = "*"
sdl3-sys = "*"
