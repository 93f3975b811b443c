[package]
name = "remailfs"
version = "0.1.0"
edition = "2021"
publish = false

[dependencies]
fuse = "0.3"
getopts = "*"
imap = "2"
libc = "*"
mailparse = "*"
native-tls = "*"
time = "0.1"
