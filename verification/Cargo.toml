[package]
name = "approval"
version = "0.1.0"
edition = "2021"
publish = false

[dependencies]
anyhow = "*"
async-stream = "*"
aws-arn = "*"
aws-config = "*"
aws-sdk-iam = "*"
aws-sdk-lambda = "*"
aws-sdk-organizations = "*"
aws-sdk-sts = "*"
aws-smithy-types-convert = { version = "*", features = ["convert-streams", "convert-chrono"] }
chrono = "*"
clap = { version = "*", features = ["derive"] }
futures = "*"
lambda_runtime = "*"
serde = { version = "*", features = ["derive"] }
serde_json = "*"
thiserror = "*"
tokio = { version = "*", features = ["macros", "rt-multi-thread"] }
