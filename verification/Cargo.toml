[package]
name = "innumerable"
version = "0.1.0"
edition = "2021"
publish = false

[dependencies]
allocator-api2 = "=0.2.21"
hashbrown = "=0.17.1"
lazy_static = "=1.5.1"
