[package]
name = "awsm_env"
version = "0.1.0"
edition = "2021"
publish = false

[dependencies]
indexmap = "*"
serde_json = "*"
aws-config = "*"
aws-sdk-secretsmanager = "*"
aws-sdk-ssm = "*"
clap = { version = "*", features = ["derive"] }
tokio = { version = "*", features = ["macros", "rt-multi-thread", "fs"] }
