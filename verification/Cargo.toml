[package]
name = "addrsync"
version = "0.1.0"
edition = "2021"
publish = false

[dependencies]
base64 = "=0.21.7"
quoted_printable = "=0.5.2"
google-people1 = "=5.0.5"
hyper = { version = "=0.14.32", features = ["client", "http1", "http2", "tcp"] }
hyper-rustls = "=0.24.2"
yup-oauth2 = "9"
tokio = { version = "1", features = ["macros", "rt-multi-thread"] }
dirs = "=5.0.1"
fluent = "=0.16.1"
intl-memoizer = "=0.5.3"
