[package]
name = "scon"
version = "0.1.0"
edition = "2021"
publish = false

[dependencies]
itoa = "1"
memchr = "2"
ryu = "1"
indexmap = "2"
ahash = "0.8"
compact_str = "*"
serde_json = "1"
flate2 = "1"
wasm-bindgen = "0.2"
js-sys = "0.3"
ext-php-rs = "*"
