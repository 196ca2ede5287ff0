[package]
name = "netplan_api"
version = "0.1.0"
edition = "2021"
publish = false

[dependencies]
actix-web = "*"
serde = { version = "*", features = ["derive"] }
serde_yml = "*"
utoipa = { version = "*", features = ["actix_extras"] }
utoipa-actix-web = "*"
