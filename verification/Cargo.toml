[package]
name = "kvp_api"
version = "0.1.0"
edition = "2021"
publish = false

[dependencies]
chrono = "*"
serde_json = "*"
aws-config = "*"
aws-sdk-dynamodb = "*"
lambda_http = "*"
http = "*"
tokio = { version = "*", features = ["macros", "rt-multi-thread"] }
