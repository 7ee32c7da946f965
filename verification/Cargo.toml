[package]
name = "binius64"
version = "0.1.0"
edition = "2021"
publish = false

[dependencies]
sha2 = "=0.11.1"
bytemuck = { version = "=1.25.2", features = ["must_cast"] }
cranelift-entity = "=0.123.20"
rand = "=0.10.3"
rayon = "1"
