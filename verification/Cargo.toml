[package]
name = "document-diff-report"
version = "0.1.0"
edition = "2021"
publish = false

[dependencies]
similar = "*"
quick-xml = "*"
zip = { version = "*", default-features = false, features = ["deflate"] }
calamine = "*"
csv = "*"
encoding_rs = "*"
anyhow = "*"
clap = { version = "*", features = ["derive"] }
pdfium-render = "*"
