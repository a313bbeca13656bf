[package]
name = "bsp_alloc"
version = "0.1.0"
edition = "2021"
publish = false

[dependencies]
roaring = "*"

[dev-dependencies]
rand = "*"
