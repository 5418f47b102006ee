[package]
name = "tvm_asm_parser"
version = "0.1.0"
edition = "2021"
publish = false

[dependencies]
everscale-types = "*"
hex = "*"
