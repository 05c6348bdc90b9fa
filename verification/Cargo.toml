[package]
name = "query_accel"
version = "0.1.0"
edition = "2021"
publish = false

[dependencies]
smallvec = "1"
zwohash = "0.1"
