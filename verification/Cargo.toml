[package]
name = "the_buddy_system"
version = "0.1.0"
edition = "2021"
publish = false

[dependencies]
the-memblock = "=0.2.1"
syn = "2"
quote = "1"
proc-macro2 = "1"
proc-macro-crate = "3"
