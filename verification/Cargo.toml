[package]
name = "bilbo"
version = "0.1.0"
edition = "2021"
publish = false

[dependencies]
cranelift-codegen = "=0.131.3"
cranelift-frontend = "=0.131.3"
cranelift-jit = "=0.131.3"
cranelift-module = "=0.131.3"
framehop = "=0.16.0"
gimli = "=0.33.0"
memmap2 = "=0.9.12"
object = "=0.39.1"
tracing = "=0.1.44"
tracing-subscriber = "=0.3.23"

[dev-dependencies]
serde_json = "=1.0.154"
