[package]
name = "beheader"
version = "0.3.0"
edition = "2021"
publish = false

[dependencies]
anyhow = "1"
byteorder = "1"
clap = { version = "4", features = ["derive"] }
image = { version = "0.25", default-features = false, features = ["bmp", "dds", "exr", "ff", "gif", "hdr", "ico", "jpeg", "png", "pnm", "qoi", "tga", "tiff", "webp"] }
scopeguard = "1"
shell-words = "1"
wasm-bindgen = "0.2"
zip = { version = "2", default-features = false, features = ["deflate"] }
