[package]
name = "hybridcrypt"
version = "0.3.0"
edition = "2021"
publish = false

[dependencies]
argon2 = { version = "0.5", default-features = false, features = ["alloc", "zeroize"] }
chacha20poly1305 = "0.10"
eframe = { version = "0.31", default-features = false, features = ["glow", "x11", "wayland", "default_fonts"] }
hkdf = "0.12"
libc = "0.2"
ml-kem = { version = "0.2", features = ["zeroize"] }
p384 = { version = "0.13", default-features = false, features = ["ecdh", "std"] }
rand = "0.8"
sha2 = "0.10"
unicode-normalization = "0.1"
zeroize = "1"
zxcvbn = { version = "3", default-features = false }
