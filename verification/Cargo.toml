[package]
name = "type_animals"
version = "0.1.0"
edition = "2021"
publish = false

[dependencies]
serde_json = "1"
rand = "0.8"
once_cell = "1"
dirs = "5"
sdl2 = { version = "0.37", features = ["image"] }
