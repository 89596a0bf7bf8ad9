[package]
name = "nary_tree"
version = "0.1.0"
edition = "2021"
publish = false

[dependencies]
snowflake = "=1.3.0"
