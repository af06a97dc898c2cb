[package]
name = "jp2lam"
version = "0.1.0"
edition = "2021"
publish = false

[dependencies]
chrono = "0.4"
image = { version = "0.25", default-features = false, features = ["png", "jpeg", "bmp", "tiff", "pnm"] }
zip = { version = "*", default-features = false, features = ["deflate"] }

[dev-dependencies]
openjp2 = "*"
