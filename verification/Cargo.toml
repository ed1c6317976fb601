[package]
name = "screenforge"
version = "0.15.0"
edition = "2021"
publish = false

[dependencies]
cairo-rs = { version = "0.20", features = ["png"] }
glib = "0.20"
gtk4 = { version = "0.9", features = ["v4_16"] }
image = { version = "0.25", default-features = false, features = ["jpeg", "webp", "avif"] }
libadwaita = { version = "0.7", features = ["v1_5"] }
pango = "0.20"
pangocairo = "0.20"
serde = { version = "1", features = ["derive"] }
serde_json = "1"
thiserror = "2"
uuid = { version = "1", features = ["serde", "v4"] }
