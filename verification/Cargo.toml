[package]
name = "starlings_core"
version = "0.1.0"
edition = "2021"
publish = false

[dependencies]
roaring = "0.10"
memmap2 = "0.9"
sysinfo = "0.32"
thiserror = "1"
tempfile = "3"
quick_cache = "0.6"
lasso = { version = "0.7", features = ["multi-threaded"] }
dashmap = "6"
boxcar = "0.2"
rustc-hash = "2"
bincode = "1"
serde = { version = "1", features = ["derive"] }
lru = "0.12"
once_cell = "1"
rayon = "1"
fastrand = "2"
num_cpus = "1"
