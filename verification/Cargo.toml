[package]
name = "mail-auth"
version = "0.1.0"
edition = "2021"
publish = false

[dependencies]
mail-parser = { version = "0.8", default-features = false }
sha1 = "0.10"
sha2 = "0.10"
