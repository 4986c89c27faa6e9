[package]
name = "timely_pass"
version = "0.1.0"
edition = "2021"
publish = false

[dependencies]
anyhow = "*"
argon2 = "*"
chacha20poly1305 = "*"
chrono = { version = "*", features = ["serde"] }
clap = { version = "*", features = ["derive"] }
hex = "*"
rand = "*"
rpassword = "*"
serde = { version = "*", features = ["derive"] }
serde_json = "*"
tempfile = "*"
tokio = { version = "*", features = ["macros", "rt-multi-thread"] }
toml = "*"
uuid = { version = "*", features = ["v4"] }
zeroize = "*"
