[package]
name = "potato_plant_mission_encoder"
version = "0.1.0"
edition = "2021"
publish = false

[dependencies]
uuid = { version = "*", features = ["v4"] }
thiserror = "*"
