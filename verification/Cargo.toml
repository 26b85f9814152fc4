[package]
name = "strider_ir"
version = "0.1.0"
edition = "2021"
publish = false

[dependencies]
cranelift-entity = "=0.125.4"
hashbrown = "=0.17.1"
rustc-hash = "=2.1.3"
