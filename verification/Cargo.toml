[package]
name = "archive_engine"
version = "0.3.0"
edition = "2021"
publish = false

[dependencies]
tar = "=0.4.46"
zip = { version = "=2.6.1", default-features = false, features = ["deflate"] }
flate2 = "=1.1.10"
zstd = { version = "=0.13.4", features = ["zstdmt"] }
lz4_flex = "=0.11.6"
xz2 = "=0.1.7"
bzip2 = "=0.4.4"
brotli = "=7.0.0"
rayon = "=1.12.0"
argon2 = "=0.5.3"
chacha20poly1305 = { version = "=0.10.1", features = ["stream"] }
rand = "=0.8.8"
zeroize = "=1.9.1"
iso9660 = "=0.1.1"
unrar = "=0.5.8"
sevenz-rust2 = "=0.24.2"
clap = { version = "=4.6.7", features = ["derive"] }
serde_json = "1"
ureq = "2"
