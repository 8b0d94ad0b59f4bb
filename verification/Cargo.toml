[package]
name = "commit_index"
version = "0.1.0"
edition = "2021"
publish = false

[dependencies]
bstr = "=1.13.1"
clap = { version = "=4.6.7", features = ["derive"] }
clap_complete = { version = "=4.6.11", features = ["unstable-dynamic"] }
gix = { version = "=0.90.0", default-features = false, features = ["sha1"] }
itertools = "=0.14.0"
scm-record = "=0.10.1"
thiserror = "=2.0.21"
tracing = "=0.1.44"
