[package]
name = "np_reactor"
version = "0.1.0"
edition = "2021"
publish = false

[dependencies]
rand = "0.8"
getrandom = { version = "0.2", features = ["custom"] }
macroquad = "0.4"
serde = { version = "1", features = ["derive"] }
serde_json = "1"
