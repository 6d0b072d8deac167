[package]
name = "wtm_gui"
version = "0.1.0"
edition = "2021"
publish = false

[dependencies]
unicode-segmentation = "1"
git2 = { version = "0.20", default-features = false }
anyhow = "1"
