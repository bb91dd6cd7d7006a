[package]
name = "x509-path"
version = "0.1.0"
edition = "2021"
publish = false

[dependencies]
const-oid = { version = "=0.9.6", features = ["db"] }
sha2 = "=0.10.9"
wit-bindgen = "=0.36.0"
x509-cert = "=0.2.5"
x509-verify = { version = "=0.4.8", features = ["x509"] }

[dev-dependencies]
rcgen = "=0.13.2"
