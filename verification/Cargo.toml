[package]
name = "maple_render_core"
version = "0.1.0"
edition = "2021"
publish = false

[dependencies]
gif = "0.13"
image = { version = "0.25", default-features = false, features = ["png", "jpeg", "gif", "webp"] }
imageproc = { version = "0.25", default-features = false }
ab_glyph = "0.2"
zip = { version = "2", default-features = false, features = ["deflate"] }
serde = { version = "1", features = ["derive"] }
serde_json = "1"
clap = { version = "4", features = ["derive"] }
color-eyre = "0.6"
delaunator = "1"
rayon = "1"
mimalloc = "0.1"
libwebp-sys = "0.14"
