[package]
name = "comphdl"
version = "0.3.0"
edition = "2021"
publish = false

[dependencies]
vcd = "*"
serde = { version = "1", features = ["derive"] }
serde_json = "1"
