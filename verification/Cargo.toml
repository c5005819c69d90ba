[package]
name = "memsolve"
version = "0.2.4"
edition = "2021"
publish = false

[dependencies]
conv = "0.3"
esp-idf-part = "*"
itertools = "0.14"
ld-memory = "*"
microlp = "*"
serde = { version = "1", features = ["derive"] }
thiserror = "2"
uom = { version = "*", features = ["u64"] }
