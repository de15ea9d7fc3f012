[package]
name = "canister_http"
version = "0.1.0"
edition = "2021"
publish = false

[dependencies]
ic-cdk = "0.17"
candid = "0.10"
serde = "1"
