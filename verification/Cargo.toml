[package]
name = "typos_vars"
version = "0.1.0"
edition = "2021"
publish = false

[dependencies]
itertools = "=0.9.0"
phf_codegen = "=0.8.0"
phf_shared = { version = "=0.8.0", features = ["unicase"] }
unicase = "=2.10.0"
structopt = "=0.3.26"
clap-verbosity-flag = "=0.3.2"
codegenrs = "=0.1.5"
env_logger = "=0.7.1"
log = "=0.4.34"
bstr = "=0.2.17"
failure = "=0.1.8"
varcon = "*"
varcon-core = "*"
