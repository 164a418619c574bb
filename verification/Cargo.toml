[package]
name = "libautark"
version = "0.1.0"
edition = "2021"
publish = false

[dependencies]
slotmap = "1"
thiserror = "2"
anyhow = "1"
tokio = { version = "1", features = ["rt-multi-thread", "sync", "macros", "time"] }
rtrb = "0.3"
flume = "0.11"
futures = "0.3"
async-trait = "0.1"
dyn-clone = "1"
itertools = "*"
serde = { version = "1", features = ["derive"] }
cpal = "*"
symphonia = "*"
rubato = "*"
audioadapter-buffers = "*"
assert_no_alloc = "*"
