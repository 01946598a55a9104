[package]
name = "ocibuild"
version = "0.1.0"
edition = "2021"
publish = false

[dependencies]
anyhow = "=1.0.104"
flate2 = "=1.1.10"
gzp = { version = "=2.0.4", default-features = false, features = ["deflate_rust"] }
jwalk = "=0.9.0"
libc = "=0.2.190"
memmap2 = "=0.9.11"
rayon = "=1.12.0"
serde_json = "=1.0.151"
serde_yaml = "=0.9.34"
sha2 = "=0.11.0"
tar = "=0.4.46"
tempfile = "=3.27.0"
xattr = "=1.6.1"
zstd = { version = "=0.14.0", features = ["zstdmt"] }
