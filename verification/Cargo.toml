[package]
name = "filesentry"
version = "0.1.0"
edition = "2021"
publish = false

[dependencies]
ecow = "0.2"
hashbrown = "0.15"
log = "0.4"
memchr = "2"
mio = { version = "1", features = ["os-poll", "os-ext"] }
papaya = "0.2"
rustix = { version = "1", features = ["fs"] }
walkdir = "2"
