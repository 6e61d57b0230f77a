[package]
name = "markdown_editor"
version = "0.1.0"
edition = "2021"
publish = false

[dependencies]
pulldown-cmark = "0.12"
serde = { version = "1", features = ["derive"] }
serde_json = "1"
toml = "0.8"
ureq = { version = "2", features = ["json"] }
dirs = "5"
knit-md-docx = "*"
ppt-rs = "*"
