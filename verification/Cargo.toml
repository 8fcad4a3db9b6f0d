[package]
name = "mrs_proof_kernel"
version = "0.2.3"
edition = "2021"
publish = false

[dependencies]
