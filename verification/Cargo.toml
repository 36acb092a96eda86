[package]
name = "orbslam"
version = "0.1.0"
edition = "2021"
publish = false

[dependencies]
ndarray = "=0.16.1"
nshare = "=0.10.0"
image = { version = "=0.25.10", default-features = false, features = ["png"] }
derive_more = { version = "=2.1.1", features = ["deref", "deref_mut"] }
log = "=0.4.34"
pretty_env_logger = "=0.5.0"
byteorder = "=1.5.0"
serde = { version = "=1.0.229", features = ["derive"] }
