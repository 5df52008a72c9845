[package]
name = "secure_serial"
version = "0.1.0"
edition = "2021"
publish = false

[dependencies]
defmt = "1"
embassy-futures = "=0.1.2"
embassy-sync = "=0.8.0"
embassy-time = "=0.5.1"
embedded-buffer-pool = "=0.2.0"
heapless = "=0.8.0"

[dev-dependencies]
crc = "=3.4.0"
embassy-time = { version = "=0.5.1", features = ["std"] }
