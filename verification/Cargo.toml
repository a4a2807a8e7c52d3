[package]
name = "osh_dir_std"
version = "0.8.0"
edition = "2021"
publish = false

[dependencies]
regex = "1"
serde = { version = "1", features = ["derive"] }
serde_json = "1"
serde_regex = "1"
csv = "1"
clap = { version = "4", features = ["cargo"] }
thiserror = "1"
log = "0.4"
tracing = "0.1"
tracing-subscriber = "0.3"
once_cell = "1"
const_format = "0.2"
cli_utils_hoijui = "*"
codify_hoijui = "*"
