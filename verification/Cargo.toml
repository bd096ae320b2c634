[package]
name = "egui_vulkano"
version = "0.1.0"
edition = "2021"
publish = false

[dependencies]
egui = "0.10"
vulkano = "0.20"
vulkano-shaders = "0.20"
