[package]
name = "xpatchlib-core"
version = "0.2.0"
edition = "2021"
publish = false

[dependencies]
sha2 = "0.10"
zstd = "0.13"
jni = "0.21"
wasm-bindgen = "0.2"
