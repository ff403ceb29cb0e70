[package]
name = "sort_visualizer"
version = "0.1.0"
edition = "2021"
publish = false

[dependencies]
fastrand = "2"
futures = "0.3"
futures-timer = "3"
thiserror = "2"
dioxus = "0.7"
rodio = "*"
