[package]
name = "fastwc"
version = "0.1.0"
edition = "2021"
publish = false

[dependencies]
clihelp = "*"
libc = "0.2"
memmap2 = "0.9"
rayon = "1"
