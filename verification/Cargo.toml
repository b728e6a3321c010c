[package]
name = "grafeia_core"
version = "0.1.0"
edition = "2021"
publish = false

[dependencies]
unicode-segmentation = "=1.13.3"
unicode_categories = "=0.1.1"
itertools = "=0.15.0"
fst = "=0.4.7"
serde = { version = "=1.0.229", features = ["derive"] }
bincode = "=1.3.3"
log = "=0.4.35"
pulldown-cmark = { version = "=0.8.0", default-features = false }
hyphenation = { version = "0.8", default-features = false }
