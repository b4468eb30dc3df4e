[package]
name = "time_coord"
version = "0.1.0"
edition = "2021"
publish = false

[dependencies]
chrono = { version = "=0.4.45", default-features = false, features = ["std"] }
gif = { version = "=0.14.2", default-features = false, features = ["std", "color_quant"] }
image = { version = "=0.25.10", default-features = false, features = ["png"] }
