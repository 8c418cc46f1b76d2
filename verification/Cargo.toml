[package]
name = "kdl_query"
version = "0.1.0"
edition = "2021"
publish = false

[dependencies]
kdl = "=6.7.1"
miette = "=7.6.0"
nu-plugin = "=0.113.1"
nu-protocol = "=0.113.1"
thiserror = "=2.0.21"
