[package]
name = "caaqi"
version = "0.1.0"
edition = "2021"
publish = false

[dependencies]
slotmap = "=1.1.1"
smallvec = "=1.16.4"
thiserror = "=2.0.21"
