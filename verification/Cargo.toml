[package]
name = "test_utils"
version = "0.1.0"
edition = "2021"
publish = false

[dependencies]
difference = "*"
itertools = "*"
serde_json = "*"
text_unit = "*"
