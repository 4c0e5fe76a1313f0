[package]
name = "kron_mesh"
version = "0.1.0"
edition = "2021"
publish = false

[dependencies]
bip39 = "=2.2.2"
eframe = { version = "=0.31.1", default-features = false, features = ["default_fonts", "glow", "x11"] }
fips204 = "=0.4.6"
hex = "=0.4.3"
rand = "=0.8.8"
serde = { version = "=1.0.229", features = ["derive"] }
serde_json = "=1.0.154"
sha2 = "=0.10.9"
snow = "=0.9.6"
socket2 = "=0.5.10"
thiserror = "=1.0.69"
