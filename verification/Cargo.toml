[package]
name = "ccp_aggregation_example"
version = "0.1.0"
edition = "2021"
publish = false

[dependencies]
slog = "2"
