[package]
name = "ctc_forced_aligner_rs"
version = "0.1.0"
edition = "2021"
publish = false

[dependencies]
anyhow = "1"
bytes = "1.9"
clap = { version = "4", features = ["derive"] }
cudarc = { version = "0.16", default-features = false, features = ["std", "driver", "dynamic-loading", "cuda-12060"] }
env_logger = "0.11"
gemm = "0.18"
half = "2"
hound = "3.5"
libm = "0.2"
log = "0.4"
memmap2 = "0.9"
rayon = "1"
safetensors = "0.5"
serde = { version = "1", features = ["derive"] }
serde_json = "1"
