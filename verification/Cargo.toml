[package]
name = "rdbms"
version = "0.1.0"
edition = "2021"
publish = false

[dependencies]
bincode = "=1.3.3"
byteorder = "=1.5.0"
serde = { version = "=1.0.229", features = ["derive"] }
thiserror = "=1.0.69"
zerocopy = "=0.3.2"
