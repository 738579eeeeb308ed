[package]
name = "beacon"
version = "0.1.0"
edition = "2021"
publish = false

[dependencies]
noodles-vcf = "*"
noodles-bgzf = "*"
noodles-tabix = "*"
noodles-csi = "*"
aws-config = "*"
aws-sdk-s3 = "*"
lambda_runtime = "*"
tokio = { version = "*", features = ["macros", "rt-multi-thread"] }
futures = "*"
serde = { version = "*", features = ["derive"] }
tracing = "*"
tracing-subscriber = { version = "*", features = ["env-filter"] }
