[package]
name = "geo"
version = "0.1.0"
edition = "2021"
publish = false

[dependencies]
rand = "=0.9.5"
rayon = "=1.12.0"
clap = { version = "=4.6.7", features = ["derive"] }
egui-macroquad = "=0.17.3"
egui = "=0.31.1"
