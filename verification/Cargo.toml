[package]
name = "unscan"
version = "0.1.0"
edition = "2021"
publish = false

[dependencies]
ab_glyph = "0.2"
clap = { version = "4", features = ["derive"] }
image = { version = "0.25", default-features = false, features = ["png", "jpeg", "bmp", "gif", "tiff", "webp", "pnm"] }
memmap2 = "0.9"
rand = { version = "0.8", features = ["small_rng"] }
rayon = "1"
rustc-hash = "2"
rustybuzz = "0.20"
serde = { version = "1", features = ["derive"] }
serde_json = "1"
thiserror = "1"
