[package]
name = "cow_btree"
version = "0.1.0"
edition = "2021"
publish = false

[dependencies]
anyhow = "1"
byteorder = "1.5"
memmap2 = "0.9"
