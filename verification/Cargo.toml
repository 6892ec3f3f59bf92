[package]
name = "twpb"
version = "0.1.0"
edition = "2021"
publish = false

[dependencies]
heapless = "0.7"
defmt = "0.3"
syn = { version = "1", features = ["full"] }
quote = "1"
proc-macro2 = "1"
