[package]
name = "luminal_python"
version = "0.1.0"
edition = "2021"
publish = false

[dependencies]
luminal = "=0.2.0"
onnx-protobuf = "=0.2.3"
protobuf = "=3.4.0"
pyo3 = "=0.30.1"
