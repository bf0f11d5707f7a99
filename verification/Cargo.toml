[package]
name = "media_sift"
version = "0.1.0"
edition = "2021"
publish = false

[dependencies]
chrono = { version = "0.4", default-features = false, features = ["std", "clock"] }
sha2 = "0.10"
walkdir = "2"
zip = { version = "2", default-features = false, features = ["deflate"] }
serde = { version = "1", features = ["derive"] }
serde_json = "1"
kamadak-exif = "0.6"
image = { version = "0.25", default-features = false, features = ["png", "bmp", "tiff"] }
rusqlite = { version = "0.32", features = ["bundled"] }
directories = "5"
trash = { version = "5", default-features = false }
open = "5"
