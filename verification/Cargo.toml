[package]
name = "vulkano_template"
version = "0.1.0"
edition = "2021"
publish = false

[dependencies]
cgmath = "=0.18.0"
winit = "=0.30.13"
tobj = "=4.0.5"
png = "0.17"
