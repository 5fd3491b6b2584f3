[package]
name = "fat32_rs"
version = "0.1.0"
edition = "2021"
publish = false

[dependencies]
bootloader_api = "=0.11.17"
lazy_static = { version = "=1.5.1", features = ["spin_no_std"] }
pic8259 = "=0.11.0"
spin = "=0.9.9"
uart_16550 = "=0.9.0"
x86_64 = { version = "=0.15.5", default-features = false, features = ["instructions"] }
