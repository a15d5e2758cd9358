[package]
name = "rs_tenant"
version = "0.1.0"
edition = "2021"
publish = false

[dependencies]
async-trait = "0.1"
axum = "0.7"
jsonwebtoken = "9"
serde = { version = "1", features = ["derive"] }
thiserror = "1"
tower = "0.5"
