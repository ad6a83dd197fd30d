[package]
name = "flowlog"
version = "0.1.0"
edition = "2021"
publish = false

[dependencies]
arrayvec = "=0.7.8"
clap = { version = "=4.6.7", features = ["derive"] }
columnation = "=0.1.2"
differential-dataflow = "=0.25.1"
indexmap = "=2.14.2"
itertools = "=0.15.0"
mimalloc = "=0.1.52"
pest = "=2.9.5"
pest_derive = "=2.9.5"
serde = { version = "=1.0.229", features = ["derive"] }
timely = "=0.31.0"
tracing = "=0.1.44"
tracing-subscriber = { version = "=0.3.23", features = ["env-filter"] }
