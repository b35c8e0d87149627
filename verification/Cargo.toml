[package]
name = "fizz"
version = "0.1.0"
edition = "2021"
publish = false

[dependencies]
smallvec = "1"
nalgebra = { version = "*", features = ["serde-serialize"] }
num = "*"
serde = { version = "1", features = ["derive"] }
thiserror = "*"
tracing = "*"
tracing-subscriber = "*"
tracing-tree = "*"
egui-macroquad = "*"
