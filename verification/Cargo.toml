[package]
name = "rmp"
version = "0.1.0"
edition = "2021"
publish = false

[dependencies]
rayon = "1"
toml = "0.8"
serde = { version = "1", features = ["derive"] }
serde_json = "1"
clap = { version = "4", features = ["derive"] }
realfft = "3"
libc = "0.2"
plotters = { version = "0.3", default-features = false, features = ["svg_backend", "bitmap_backend", "bitmap_encoder", "ab_glyph", "line_series"] }
