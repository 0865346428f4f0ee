[package]
name = "trueno_graph"
version = "0.1.0"
edition = "2021"
publish = false

[dependencies]
anyhow = "1"
aprender = "*"
arrow = "53"
bytemuck = { version = "1", features = ["derive", "extern_crate_alloc"] }
futures-intrusive = "0.5"
parquet = "53"
thiserror = "1"
wgpu = "22"
