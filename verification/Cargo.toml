[package]
name = "rzozowski_fuzz"
version = "0.1.0"
edition = "2021"
publish = false

[dependencies]
rzozowski = "=0.1.3"
regex = "=1.13.1"
libfuzzer-sys = { version = "=0.4.13", default-features = false }
