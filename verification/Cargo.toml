[package]
name = "totpman"
version = "0.1.0"
edition = "2021"
publish = false

[dependencies]
anstyle = "*"
arboard = "*"
clap = { version = "*", features = ["derive"] }
data-encoding = "*"
owo-colors = "*"
serde = { version = "*", features = ["derive"] }
serde_json = "*"
tabled = "*"
totp-lite = "*"
