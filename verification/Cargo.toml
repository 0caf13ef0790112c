[package]
name = "compute"
version = "0.1.0"
edition = "2021"
publish = false

[dependencies]
libm = "0.2"
bytemuck = "1"
impl_ops = "*"
