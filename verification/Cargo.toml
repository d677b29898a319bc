[package]
name = "spargel"
version = "0.1.0"
edition = "2021"
publish = false

[dependencies]
chrono = "0.4"
image = { version = "0.24", default-features = false, features = ["png", "jpeg", "gif"] }
markdown = "1.0.0-alpha.16"
md5 = "0.7"
rand = "0.8"
regex = "1"
rocket = "0.5"
rocket_dyn_templates = { version = "0.2", features = ["tera"] }
rss = "2"
serde = { version = "1", features = ["derive"] }
serde_json = "1"
slugify = "0.1"
speedy = "0.8"
