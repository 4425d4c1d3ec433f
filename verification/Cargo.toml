[package]
name = "diskann_layout"
version = "0.1.0"
edition = "2021"
publish = false

[dependencies]
anyhow = "1"
bytemuck = "1"
byteorder = "1.5"
clap = { version = "4.5", features = ["derive"] }
hashbrown = "0.15"
memmap2 = "0.9"
rand = "0.9"
serde = { version = "1", features = ["derive"] }
serde_json = "1"
sha2 = "0.10"
thiserror = "2"
tracing = "0.1"
