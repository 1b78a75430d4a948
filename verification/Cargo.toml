[package]
name = "scalargrad"
version = "0.1.0"
edition = "2021"
publish = false

[dependencies]
rand = "=0.10.3"
libm = "=0.2.16"
bytemuck = "*"
csv = "=1.4.0"
