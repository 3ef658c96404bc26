[package]
name = "i18n_codegen"
version = "0.1.0"
edition = "2021"
publish = false

[dependencies]
anyhow = "1"
convert_case = "0.4"
itertools = "0.10"
