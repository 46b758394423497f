[package]
name = "sonic_protocol"
version = "0.1.0"
edition = "2021"
publish = false

[dependencies]
cpal = "0.15"
crc32fast = "1"
crossbeam-channel = "0.5"
jni = "0.21"
ndk-context = "0.1"
num-complex = "0.4"
rtrb = "0.3"
rustfft = "6"
serde = { version = "1", features = ["derive"] }
