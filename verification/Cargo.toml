[package]
name = "rir_codegen"
version = "0.1.0"
edition = "2021"
publish = false

[dependencies]
anyhow = "1"
dashmap = "5"
itertools = "0.11"
rayon = "1"
tracing = "0.1"

[dev-dependencies]
proc-macro2 = "1"
