[package]
name = "dla"
version = "0.1.0"
edition = "2021"
publish = false

[dependencies]
allocator-api2 = "=0.2.21"
hashbrown = "=0.17.1"
rand = "=0.8.8"
structopt = "=0.3.26"
