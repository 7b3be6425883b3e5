[package]
name = "egui_snarl"
version = "0.1.0"
edition = "2021"
publish = false

[dependencies]
egui = "=0.36.2"
egui-scale = "=0.6.1"
slab = "=0.4.12"
smallvec = { version = "=1.16.4", features = ["const_new"] }
