[package]
name = "bm_core"
version = "0.1.0"
edition = "2021"
publish = false

[dependencies]
bytemuck = { version = "1", features = ["extern_crate_alloc", "min_const_generics"] }
chess = "3"
cozy-chess = "*"
