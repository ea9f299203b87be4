[package]
name = "nanomesh"
version = "0.1.0"
edition = "2021"
publish = false

[dependencies]
priority-queue = "=2.7.0"
