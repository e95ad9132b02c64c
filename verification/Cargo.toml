[package]
name = "dynamo_db"
version = "0.1.0"
edition = "2021"
publish = false

[dependencies]
bcs = "*"
aws-config = { version = "*", default-features = false }
aws-sdk-dynamodb = { version = "*", default-features = false }
futures = "*"
thiserror = "*"
