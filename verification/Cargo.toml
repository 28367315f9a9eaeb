[package]
name = "tar_entry"
version = "0.1.0"
edition = "2021"
publish = false

[dependencies]
futures-core = "0.3"
libc = "0.2"
rustc-hash = "2"
rustix = { version = "1", features = ["fs"] }
tokio = { version = "1", features = ["fs", "io-util"] }
xattr = "1"
