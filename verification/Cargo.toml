[package]
name = "grounded_guardrails"
version = "0.1.0"
edition = "2021"
publish = false

[dependencies]
regex = "1"
