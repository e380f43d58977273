[package]
name = "ltp_onnx"
version = "0.1.0"
edition = "2021"
publish = false

[dependencies]
tokenizers = "=0.21.4"
ort = { version = "=2.0.0-rc.15", default-features = false, features = ["std", "ndarray", "load-dynamic", "cuda"] }
ndarray = "=0.16.1"
thiserror = "=2.0.21"
