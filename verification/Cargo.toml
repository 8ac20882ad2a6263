[package]
name = "amiga_disasm"
version = "0.1.0"
edition = "2021"
publish = false

[dependencies]
m68000 = "=0.2.3"
serde = { version = "=1.0.229", features = ["derive"] }
thiserror = "=2.0.21"
