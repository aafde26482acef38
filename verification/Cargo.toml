[package]
name = "mpx"
version = "0.1.0"
edition = "2021"
publish = false

[dependencies]
base64 = "0.22"
chacha20poly1305 = "0.10"
ciborium = "0.2"
clap = { version = "4", features = ["derive"] }
hkdf = "0.12"
hostname = "0.4"
if-addrs = "0.13"
libc = "0.2"
mdns-sd = "0.13"
qrcode = { version = "0.14", default-features = false }
rand_core = { version = "0.6", features = ["getrandom"] }
sha2 = "0.10"
ssh-key = { version = "0.6", features = ["ed25519"] }
subtle = "2"
x25519-dalek = { version = "2", features = ["static_secrets"] }
