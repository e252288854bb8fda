[package]
name = "cortex_m_rtfm"
version = "0.1.0"
edition = "2021"
publish = false

[dependencies]
cortex-m = "*"
