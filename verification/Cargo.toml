[package]
name = "gremlin"
version = "0.1.0"
edition = "2021"
publish = false

[dependencies]
sha2 = "0.10"
serde = { version = "1", features = ["derive"] }
serde_json = "1"
toml = "0.8"
iced-x86 = "1.21"
object = "0.36"
libc = "0.2"
