[package]
name = "pdf_text_extract"
version = "0.1.0"
edition = "2021"
publish = false

[dependencies]
image = "0.25"
pdfium-render = "0.8"
clap = { version = "4", features = ["derive"] }
serde = { version = "1", features = ["derive"] }
serde_json = "1"
