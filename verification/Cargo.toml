[package]
name = "ui_extractor"
version = "0.1.0"
edition = "2021"
publish = false

[dependencies]
image = { version = "0.25", default-features = false, features = ["png", "jpeg", "webp", "gif"] }
imageproc = { version = "0.25", default-features = false }
ab_glyph = "0.2"
serde = { version = "1", features = ["derive"] }
serde_json = "1"
thiserror = "1"
anyhow = "1"
clap = { version = "4", features = ["derive"] }
rayon = "1"
resvg = "0.45"
