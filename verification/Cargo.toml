[package]
name = "bench_plot"
version = "0.1.0"
edition = "2021"
publish = false

[dependencies]
log = "0.4"
regex = "1"
serde_json = "1"
vega_lite_3 = "*"
