[package]
name = "strict_strings"
version = "0.1.0"
edition = "2021"
publish = false

[dependencies]
clap = "3"
indicatif = "0.17"
lingua = { version = "1.4", default-features = false, features = ["english", "french", "german", "spanish", "russian", "chinese"] }
prettytable-rs = "0.10"
strsim = "0.10"
