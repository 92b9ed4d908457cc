[package]
name = "pgmer1serv"
version = "0.1.0"
edition = "2021"
publish = false

[dependencies]
actix-web = "*"
nng = "*"
serde = { version = "*", features = ["derive"] }
serde_json = "*"

[dev-dependencies]
rmp-serde = "*"
