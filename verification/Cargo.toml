[package]
name = "field"
version = "0.1.0"
edition = "2021"
publish = false

[dependencies]
serde = { version = "=1.0.229", features = ["derive"] }
syn = { version = "=2.0.119", features = ["full"] }
quote = "=1.0.47"
proc-macro2 = "=1.0.107"
grass_app = "=0.1.1"
grass_mpi = { version = "=0.1.1", default-features = false }
grass_scheduler = "=0.1.1"
grass_derive = "=0.1.1"
