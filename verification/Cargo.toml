[package]
name = "gpzip"
version = "0.1.0"
edition = "2021"
publish = false

[dependencies]
anyhow = "1"
bytemuck = { version = "1", features = ["derive"] }
bzip2 = "0.4"
clap = { version = "4", features = ["derive"] }
crc32fast = "1"
crossbeam-channel = "0.5"
flate2 = "1"
indicatif = "0.17"
num_cpus = "1"
pollster = "0.3"
rayon = "1"
sevenz-rust2 = "*"
tar = "0.4"
thiserror = "1"
tracing = "0.1"
unrar = "0.5"
wgpu = "0.19"
xz2 = "0.1"
zip = { version = "2", default-features = false, features = ["deflate"] }
zstd = "0.13"
