[package]
name = "stack_outputs"
version = "0.1.0"
edition = "2021"
publish = false

[dependencies]
serde_yaml = "*"
thiserror = "*"
aws-config = "*"
aws-sdk-cloudformation = "*"
tokio = { version = "1", features = ["macros", "rt-multi-thread"] }

[dev-dependencies]
serde_json = "*"
