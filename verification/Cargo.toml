[package]
name = "wfeusk"
version = "0.1.0"
edition = "2021"
publish = false

[dependencies]
libdawg = "=1.0.0"
typed-arena = "=2.0.2"
itertools = "=0.15.0"
smallvec = { version = "=1.16.4", features = ["union"] }
clap = { version = "=4.6.7", features = ["derive"] }
