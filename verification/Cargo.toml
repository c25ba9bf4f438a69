[package]
name = "robot_orientation"
version = "0.1.0"
edition = "2021"
publish = false

[dependencies]
anyhow = "=1.0.104"
nalgebra = "=0.35.0"
rclrust = "=0.0.2"
rclrust-msg = "=0.0.2"
tokio = { version = "=1.54.1", features = ["macros", "rt-multi-thread"] }

[dev-dependencies]
serde_json = "=1.0.154"
