[package]
name = "fe_ui_core"
version = "0.1.0"
edition = "2021"
publish = false

[dependencies]
slotmap = "1"
taffy = "0.4"
glam = "*"
bytemuck = { version = "1", features = ["derive"] }
