[package]
name = "ravencol"
version = "0.1.0"
edition = "2021"
publish = false

[dependencies]
csv = "1"
ordered-float = "4"
plotters = { version = "0.3", default-features = false, features = ["bitmap_backend", "bitmap_encoder", "line_series", "area_series"] }
