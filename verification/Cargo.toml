[package]
name = "commeatus"
version = "0.6.0"
edition = "2021"
publish = false

[dependencies]
mio = { version = "1", features = ["os-poll", "net"] }
nix = { version = "0.30", features = ["net", "socket", "uio"] }
rustls = { version = "0.23", default-features = false, features = ["ring", "std", "tls12"] }
sha2 = "0.10"
socket2 = { version = "0.6", features = ["all"] }
webpki-roots = "0.26"
